//! What is written in an xWMA file, number by number, is what the demuxer
//! makes of it. The laws here speak of the values that were written and of the
//! bytes that spell them, in whatever state the demuxer is when they come in.

use crate::bytes::{field, le16, le32, DATA, DPDS, FMT, RIFF, XWMA};
use crate::error::DemuxError;
use crate::files::{
    after_chunk, chunk_out, law_chunk_is_read, lemma_header_fields, lemma_packet_count, Chunk,
};
use crate::format::{fmt_of, Fmt};
use crate::laws::{
    after_data, law_data_comes_out_in_packets, lemma_header_error_comes_first,
    lemma_packets_first, packets,
};
use crate::model::{
    entries, kind_of, lemma_run_step, lemma_run_waits, odd, packet, run, saturating, start_events,
    DataChunk, ParserView, Run, Stage,
};
use crate::output::{Event, OutputView, WmaCaps};
use crate::seeking::law_time_goes_up;
use crate::timeline::{lemma_last_block, packet_time};
use crate::typefind::is_xwma;
use crate::xwmademux::{chained, settled, DemuxView};
use vstd::prelude::*;

verus! {

/// The bytes of a `u16`, the low one first.
pub open spec fn u16_bytes(n: u16) -> Seq<u8> {
    seq![(n % 0x100) as u8, (n / 0x100) as u8]
}

/// The bytes of a `u32`, the lowest one first.
pub open spec fn u32_bytes(n: u32) -> Seq<u8> {
    seq![
        (n % 0x100) as u8,
        (n / 0x100 % 0x100) as u8,
        (n / 0x1_0000 % 0x100) as u8,
        (n / 0x100_0000) as u8,
    ]
}

/// The bytes of some `u32`s, one after the other.
pub open spec fn words(s: Seq<u32>) -> Seq<u8> {
    Seq::new(4 * s.len(), |i: int| u32_bytes(s[i / 4])[i % 4])
}

/// A WAVEFORMATEX.
pub open spec fn wave_format(f: Fmt) -> Seq<u8> {
    u16_bytes(f.format_tag) + u16_bytes(f.channels) + u32_bytes(f.rate) + u32_bytes(
        f.avg_bytes_per_sec,
    ) + u16_bytes(f.block_align) + u16_bytes(f.bits_per_sample)
}

/// A chunk: an id, the size of the body, the body, and a pad byte where the
/// size is odd.
pub open spec fn written_chunk(id: Seq<u8>, body: Seq<u8>, pad: u8) -> Seq<u8> {
    id + u32_bytes(body.len() as u32) + body + (if body.len() % 2 == 1 {
        seq![pad]
    } else {
        seq![]
    })
}

/// `fmt `.
pub open spec fn fmt_id() -> Seq<u8> {
    seq![0x66u8, 0x6d, 0x74, 0x20]
}

/// `dpds`.
pub open spec fn dpds_id() -> Seq<u8> {
    seq![0x64u8, 0x70, 0x64, 0x73]
}

/// `data`.
pub open spec fn data_id() -> Seq<u8> {
    seq![0x64u8, 0x61, 0x74, 0x61]
}

/// A chunk is due, and nothing of it has come in.
pub open spec fn between_chunks(v: DemuxView) -> bool {
    &&& v.buffered.len() == 0
    &&& !v.parser.skip
    &&& v.parser.stage is ChunkHeader
}

/// `n` bytes after position `at`; positions end at the largest `u64`.
pub open spec fn is_position(at: u64, n: int, then: u64) -> bool {
    then == at + n || (then == u64::MAX && at + n > u64::MAX)
}

proof fn lemma_ids()
    ensures
        FMT@ == fmt_id(),
        DPDS@ == dpds_id(),
        DATA@ == data_id(),
        fmt_id() != dpds_id(),
        fmt_id() != data_id(),
        dpds_id() != data_id(),
{
    assert(FMT@ =~= fmt_id() && DPDS@ =~= dpds_id() && DATA@ =~= data_id());
    assert(fmt_id()[0] != dpds_id()[0] && fmt_id()[0] != data_id()[0]);
    assert(dpds_id()[1] != data_id()[1]);
}

proof fn lemma_u16(n: u16, s: Seq<u8>, i: int)
    requires
        0 <= i,
        i + 2 <= s.len(),
        s[i] == u16_bytes(n)[0],
        s[i + 1] == u16_bytes(n)[1],
    ensures
        le16(s, i) == n,
{
}

pub(crate) proof fn lemma_u32(n: u32, s: Seq<u8>, i: int)
    requires
        0 <= i,
        i + 4 <= s.len(),
        s[i] == u32_bytes(n)[0],
        s[i + 1] == u32_bytes(n)[1],
        s[i + 2] == u32_bytes(n)[2],
        s[i + 3] == u32_bytes(n)[3],
    ensures
        le32(s, i) == n,
{
}

/// A chunk as it is written.
proof fn lemma_written(id: Seq<u8>, body: Seq<u8>, pad: u8) -> (c: Chunk)
    requires
        id.len() == 4,
        body.len() <= u32::MAX,
    ensures
        c == (Chunk { id, body, pad }),
        c.bytes() == written_chunk(id, body, pad),
        written_chunk(id, body, pad).len() == 8 + body.len() + body.len() % 2,
{
    let c = Chunk { id, body, pad };
    assert(c.bytes() =~= written_chunk(id, body, pad));
    c
}

/// A whole chunk, taken from between chunks.
proof fn lemma_whole_chunk(v: DemuxView, id: Seq<u8>, body: Seq<u8>, pad: u8)
    requires
        between_chunks(v),
        id.len() == 4,
        body.len() <= u32::MAX,
        id == fmt_id() ==> body.len() >= 16,
        id == data_id() ==> v.parser.fmt is Some && v.parser.next_packet + body.len() <= u64::MAX,
    ensures
        ({
            let c = Chunk { id, body, pad };
            let r = chained(v, written_chunk(id, body, pad));
            let q = after_chunk(v.parser, c);
            &&& r.error is None
            &&& r.rest.len() == 0
            &&& r.out == chunk_out(v.parser, c)
            &&& r.parser == q
            &&& !q.skip
            &&& q.stage is ChunkHeader
        }),
{
    let none = Seq::<u8>::empty();
    let c = lemma_written(id, body, pad);
    lemma_ids();
    assert(v.buffered + written_chunk(id, body, pad) =~= c.bytes() + none);
    law_chunk_is_read(v.parser, c, none);
    let q = after_chunk(v.parser, c);
    lemma_run_waits(q, none);
    assert(chunk_out(v.parser, c) + Seq::<OutputView>::empty() =~= chunk_out(v.parser, c));
}

/// The numbers in a `fmt ` chunk are read as they were written, whatever they
/// are, whatever follows them in the chunk, and whatever came before it.
/// Nothing comes out, and nothing else changes.
pub proof fn law_format_is_read_as_written(v: DemuxView, f: Fmt, more: Seq<u8>, pad: u8)
    requires
        between_chunks(v),
        16 + more.len() <= u32::MAX,
    ensures
        ({
            let chunk = written_chunk(fmt_id(), wave_format(f) + more, pad);
            let r = chained(v, chunk);
            &&& r.error is None
            &&& r.rest.len() == 0
            &&& r.out.len() == 0
            &&& r.parser == (ParserView {
                fmt: Some(f),
                position: r.parser.position,
                ..v.parser
            })
            &&& is_position(v.parser.position, chunk.len() as int, r.parser.position)
        }),
{
    let body = wave_format(f) + more;
    lemma_whole_chunk(v, fmt_id(), body, pad);
    lemma_written(fmt_id(), body, pad);
    lemma_ids();
    lemma_u16(f.format_tag, body, 0);
    lemma_u16(f.channels, body, 2);
    lemma_u32(f.rate, body, 4);
    lemma_u32(f.avg_bytes_per_sec, body, 8);
    lemma_u16(f.block_align, body, 12);
    lemma_u16(f.bits_per_sample, body, 14);
    assert(fmt_of(body) == f);
}

/// The words of an index, one by one.
proof fn lemma_words(index: Seq<u32>, more: Seq<u8>)
    requires
        more.len() < 4,
    ensures
        ({
            let body = words(index) + more;
            &&& body.len() == 4 * index.len() + more.len()
            &&& body.len() as int / 4 == index.len()
            &&& entries(body, index.len() as int) == index
        }),
{
    let body = words(index) + more;
    assert forall|i: int| 0 <= i < index.len() implies #[trigger] entries(
        body,
        index.len() as int,
    )[i] == index[i] by {
        assert((4 * i) / 4 == i && (4 * i + 1) / 4 == i && (4 * i + 2) / 4 == i && (4 * i + 3) / 4
            == i);
        assert((4 * i) % 4 == 0 && (4 * i + 1) % 4 == 1 && (4 * i + 2) % 4 == 2 && (4 * i + 3) % 4
            == 3);
        lemma_u32(index[i], body, 4 * i);
    }
    assert(entries(body, index.len() as int) =~= index);
}

/// Four bytes are those of the number that they are read as.
pub(crate) proof fn lemma_u32_read(s: Seq<u8>, i: int)
    requires
        0 <= i,
        i + 4 <= s.len(),
    ensures
        0 <= le32(s, i) <= u32::MAX,
        u32_bytes(le32(s, i) as u32) == s.subrange(i, i + 4),
{
    let n = le32(s, i);
    let (a, b, c, d) = (s[i] as int, s[i + 1] as int, s[i + 2] as int, s[i + 3] as int);
    assert(n == a + 0x100 * b + 0x1_0000 * c + 0x100_0000 * d);
    assert(n % 0x100 == a);
    assert(n / 0x100 == b + 0x100 * c + 0x1_0000 * d);
    assert(n / 0x100 % 0x100 == b);
    assert(n / 0x1_0000 == c + 0x100 * d);
    assert(n / 0x1_0000 % 0x100 == c);
    assert(n / 0x100_0000 == d);
    assert(u32_bytes(n as u32) =~= s.subrange(i, i + 4));
}

/// The numbers in a `dpds` chunk are read as they were written, one by one,
/// whatever they are and whatever came before the chunk. The decoded total is
/// what the last four bytes spell: the last number, where the chunk holds
/// nothing after it. A chunk of less than four bytes tells nothing. Nothing
/// comes out, and nothing else changes.
pub proof fn law_index_is_read_as_written(v: DemuxView, index: Seq<u32>, more: Seq<u8>, pad: u8)
    requires
        between_chunks(v),
        more.len() < 4,
        4 * index.len() + more.len() <= u32::MAX,
    ensures
        ({
            let body = words(index) + more;
            let chunk = written_chunk(dpds_id(), body, pad);
            let r = chained(v, chunk);
            &&& r.error is None
            &&& r.rest.len() == 0
            &&& r.out.len() == 0
            &&& is_position(v.parser.position, chunk.len() as int, r.parser.position)
            &&& if index.len() == 0 {
                r.parser == (ParserView { position: r.parser.position, ..v.parser })
            } else {
                &&& r.parser == (ParserView {
                    index,
                    dpds_total: r.parser.dpds_total,
                    position: r.parser.position,
                    ..v.parser
                })
                &&& r.parser.dpds_total matches Some(total) && u32_bytes(total) == body.subrange(
                    body.len() - 4,
                    body.len() as int,
                )
                &&& more.len() == 0 ==> r.parser.dpds_total == Some(index.last())
            }
        }),
{
    let body = words(index) + more;
    lemma_words(index, more);
    lemma_whole_chunk(v, dpds_id(), body, pad);
    lemma_written(dpds_id(), body, pad);
    lemma_ids();
    if index.len() > 0 {
        lemma_u32_read(body, body.len() - 4);
        if more.len() == 0 {
            let i = index.len() - 1;
            assert(le32(body, 4 * i) as u32 == entries(body, index.len() as int)[i]);
        }
    }
}

/// A chunk with another id, whatever it holds, plays no part.
pub proof fn law_other_chunks_tell_nothing(v: DemuxView, id: Seq<u8>, body: Seq<u8>, pad: u8)
    requires
        between_chunks(v),
        id.len() == 4,
        id != fmt_id() && id != dpds_id() && id != data_id(),
        body.len() <= u32::MAX,
    ensures
        ({
            let chunk = written_chunk(id, body, pad);
            let r = chained(v, chunk);
            &&& r.error is None
            &&& r.rest.len() == 0
            &&& r.out.len() == 0
            &&& r.parser == (ParserView { position: r.parser.position, ..v.parser })
            &&& is_position(v.parser.position, chunk.len() as int, r.parser.position)
        }),
{
    lemma_whole_chunk(v, id, body, pad);
    lemma_written(id, body, pad);
    lemma_ids();
}

/// Less than the eight bytes of a chunk header decides nothing, whatever they
/// are: they are kept.
pub proof fn law_part_of_a_chunk_header_waits(v: DemuxView, data: Seq<u8>)
    requires
        between_chunks(v),
        data.len() < 8,
    ensures
        ({
            let r = chained(v, data);
            &&& r.error is None
            &&& r.out.len() == 0
            &&& r.rest == data
            &&& r.parser == v.parser
        }),
{
    assert(v.buffered + data =~= data);
    lemma_run_waits(v.parser, data);
}

/// The parser has learnt nothing: it differs at most in where it is.
pub open spec fn as_wise_as(p: ParserView, q: ParserView) -> bool {
    q == (ParserView { stage: q.stage, position: q.position, ..p })
}

/// While a chunk other than `data` is not there to its last byte, nothing comes
/// of it: no output, no error and no knowledge.
pub proof fn law_part_of_a_chunk_tells_nothing(
    v: DemuxView,
    id: Seq<u8>,
    body: Seq<u8>,
    pad: u8,
    n: int,
)
    requires
        between_chunks(v),
        id.len() == 4,
        id != data_id(),
        body.len() <= u32::MAX,
        0 <= n < written_chunk(id, body, pad).len(),
    ensures
        ({
            let r = chained(v, written_chunk(id, body, pad).take(n));
            &&& r.error is None
            &&& r.out.len() == 0
            &&& as_wise_as(v.parser, r.parser)
        }),
{
    let p = v.parser;
    let c = lemma_written(id, body, pad);
    let input = written_chunk(id, body, pad).take(n);
    let none = Seq::<OutputView>::empty();
    lemma_ids();
    assert(v.buffered + input =~= input);
    if n < 8 {
        lemma_run_waits(p, input);
    } else {
        let left = input.skip(8);
        let len = body.len() as int;
        assert(input =~= c.header() + left);
        lemma_header_fields(c, left);
        lemma_run_step(p, input, none);
        let q = p.moved(8).at(
            Stage::ChunkBody { kind: kind_of(id), size: len as u32, pad: odd(len) },
        );
        lemma_run_waits(q, left);
        assert(none + run(p, input).out =~= run(p, input).out);
    }
}

/// A `fmt ` chunk of less than 16 bytes is refused once it is there to its last
/// byte. Its body is kept, so that the next buffer is refused too.
pub proof fn law_short_format_is_refused(v: DemuxView, body: Seq<u8>, pad: u8, rest: Seq<u8>)
    requires
        between_chunks(v),
        body.len() < 16,
    ensures
        ({
            let chunk = written_chunk(fmt_id(), body, pad);
            let r = chained(v, chunk + rest);
            &&& r.error == Some(DemuxError::FmtTooSmall)
            &&& r.out.len() == 0
            &&& as_wise_as(v.parser, r.parser)
            &&& r.rest == (chunk + rest).skip(8)
            &&& chained(settled(v, r), seq![]) == r
        }),
{
    let p = v.parser;
    let c = lemma_written(fmt_id(), body, pad);
    let none = Seq::<OutputView>::empty();
    let input = written_chunk(fmt_id(), body, pad) + rest;
    let left = (body + c.padding()) + rest;
    let len = body.len() as int;
    lemma_ids();
    assert(v.buffered + input =~= c.header() + left);
    lemma_header_fields(c, left);
    assert(input =~= c.header() + left);
    lemma_run_step(p, input, none);
    let q = p.moved(8).at(
        Stage::ChunkBody { kind: kind_of(fmt_id()), size: len as u32, pad: odd(len) },
    );
    assert(none + run(p, input).out =~= run(p, input).out);
    lemma_short_body(q, left, len as u32, odd(len));
    assert(left + Seq::<u8>::empty() =~= left);
}

/// The body of a `fmt ` chunk that is too short.
proof fn lemma_short_body(q: ParserView, left: Seq<u8>, size: u32, pad: bool)
    requires
        !q.skip,
        q.stage == (Stage::ChunkBody { kind: kind_of(fmt_id()), size, pad }),
        size < 16,
        left.len() >= q.need(),
    ensures
        run(q, left) == (Run {
            parser: q,
            rest: left,
            out: seq![],
            error: Some(DemuxError::FmtTooSmall),
        }),
{
    lemma_ids();
    assert(left.skip(0) =~= left);
    assert(q.moved(0) =~= q);
}

/// A `data` chunk before the format is known is refused at its header, which is
/// consumed; nothing comes out of it.
pub proof fn law_data_without_format_is_refused(v: DemuxView, size: u32, rest: Seq<u8>)
    requires
        between_chunks(v),
        v.parser.fmt is None,
    ensures
        ({
            let r = chained(v, data_id() + u32_bytes(size) + rest);
            &&& r.error == Some(DemuxError::DataBeforeFmt)
            &&& r.out.len() == 0
            &&& r.parser == (ParserView { position: r.parser.position, ..v.parser })
            &&& r.rest == rest
        }),
{
    let p = v.parser;
    let input = data_id() + u32_bytes(size) + rest;
    let none = Seq::<OutputView>::empty();
    lemma_ids();
    assert(v.buffered + input =~= input);
    let b = input.take(8);
    assert(field(b, 0, 4) =~= data_id());
    lemma_run_step(p, input, none);
    assert(none + run(p, input).out =~= run(p, input).out);
    assert(input.skip(8) =~= rest);
}

// ---------------------------------------------------------------------------
// The header of a file.

/// The first twelve bytes are `RIFF`, any four, and `XWMA`.
pub open spec fn spells_xwma(s: Seq<u8>) -> bool {
    &&& s.len() >= 12
    &&& s[0] == 0x52 && s[1] == 0x49 && s[2] == 0x46 && s[3] == 0x46
    &&& s[8] == 0x58 && s[9] == 0x57 && s[10] == 0x4d && s[11] == 0x41
}

/// The type finder knows a file by eight bytes, and the demuxer takes and
/// refuses streams by the same: fewer than twelve bytes decide nothing; twelve
/// or more of which one of the eight differs are refused, and kept, so that
/// the next buffer is refused too; others open the file, and what follows them
/// is chunks.
pub proof fn law_header_decides(v: DemuxView, data: Seq<u8>)
    requires
        v.parser.stage is RiffHeader,
        !v.parser.skip,
    ensures
        ({
            let s = v.buffered + data;
            let r = chained(v, data);
            &&& is_xwma(s) <==> spells_xwma(s)
            &&& r.error == Some(DemuxError::NotXwma) <==> s.len() >= 12 && !spells_xwma(s)
            &&& !spells_xwma(s) ==> {
                &&& r.out.len() == 0
                &&& r.rest == s
                &&& r.parser == v.parser
                &&& r.error is None <==> s.len() < 12
            }
            &&& spells_xwma(s) ==> {
                let w = DemuxView {
                    buffered: s.skip(12),
                    parser: ParserView {
                        stage: Stage::ChunkHeader,
                        position: saturating(v.parser.position, 12),
                        ..v.parser
                    },
                    ..v
                };
                r == chained(w, seq![]) && is_position(
                    v.parser.position,
                    12,
                    w.parser.position,
                )
            }
        }),
{
    let s = v.buffered + data;
    let none = Seq::<OutputView>::empty();
    let r = chained(v, data);
    lemma_xwma(s);
    if s.len() < 12 {
        lemma_run_waits(v.parser, s);
    } else {
        let h = s.take(12);
        lemma_xwma(h);
        lemma_run_step(v.parser, s, none);
        assert(none + r.out =~= r.out);
        if spells_xwma(s) {
            let q = v.parser.moved(12).at(Stage::ChunkHeader);
            assert(s.skip(12) + Seq::<u8>::empty() =~= s.skip(12));
            assert(none + run(q, s.skip(12)).out =~= run(q, s.skip(12)).out);
            lemma_header_error_comes_first(q, s.skip(12));
        } else {
            assert(s.skip(0) =~= s);
            assert(v.parser.moved(0) =~= v.parser);
        }
    }
}

/// What the type finder looks for.
pub(crate) proof fn lemma_xwma(s: Seq<u8>)
    ensures
        is_xwma(s) <==> spells_xwma(s),
{
    if s.len() >= 12 {
        let (a, b) = (field(s, 0, 4), field(s, 8, 4));
        assert(a[0] == s[0] && a[1] == s[1] && a[2] == s[2] && a[3] == s[3]);
        assert(b[0] == s[8] && b[1] == s[9] && b[2] == s[10] && b[3] == s[11]);
        if spells_xwma(s) {
            assert(a =~= RIFF@);
            assert(b =~= XWMA@);
        }
    }
}

// ---------------------------------------------------------------------------
// Time.

/// Decoded bytes can be turned into time.
pub open spec fn has_clock(f: Fmt) -> bool {
    f.channels > 0 && f.rate > 0
}

/// There are `frames` whole frames of `frame` bytes in `bytes` bytes.
pub open spec fn frames_in(frame: int, bytes: int, frames: int) -> bool {
    frames * frame <= bytes < (frames + 1) * frame
}

/// The bytes of a decoded sample: whole ones, and one at least.
pub open spec fn sample_bytes(f: Fmt) -> int {
    if f.bits_per_sample < 16 {
        1
    } else {
        f.bits_per_sample as int / 8
    }
}

/// The whole frames in `bytes` decoded bytes play for `t` whole nanoseconds: a
/// frame holds a sample for each channel, and `rate` frames play in a second.
pub open spec fn lasts(f: Fmt, bytes: int, t: int) -> bool {
    exists|frames: int| #[trigger]
        frames_in(f.channels * sample_bytes(f), bytes, frames) && t * f.rate <= frames
            * 1_000_000_000 < (t + 1) * f.rate
}

/// What decoded bytes are in time, and that it is the only such time.
pub proof fn law_time_of_decoded_bytes(f: Fmt, bytes: u32, t: int)
    ensures
        f.timed() <==> has_clock(f),
        has_clock(f) ==> lasts(f, bytes as int, f.nanos(bytes as int)),
        has_clock(f) ==> 0 <= f.nanos(bytes as int) <= u64::MAX,
        has_clock(f) && lasts(f, bytes as int, t) ==> t == f.nanos(bytes as int),
{
    let sample = sample_bytes(f);
    let frame = f.channels * sample;
    assert(sample >= 1);
    assert(frame == f.bytes_per_frame());
    assert(f.channels > 0 ==> frame >= 1) by (nonlinear_arith)
        requires
            frame == f.channels * sample,
            sample >= 1,
    ;
    assert(f.channels == 0 ==> frame == 0) by (nonlinear_arith)
        requires
            frame == f.channels * sample,
    ;
    if has_clock(f) {
        let frames = bytes as int / frame;
        let ns = f.nanos(bytes as int);
        law_time_goes_up(f, bytes as int, bytes as int);
        lemma_divided(bytes as int, frame, frames);
        lemma_divided(frames * 1_000_000_000, f.rate as int, ns);
        assert(frames_in(frame, bytes as int, frames));
        if lasts(f, bytes as int, t) {
            let other = choose|other: int| #[trigger]
                frames_in(frame, bytes as int, other) && t * f.rate <= other * 1_000_000_000 < (t
                    + 1) * f.rate;
            lemma_one_quotient(bytes as int, frame, frames, other);
            lemma_one_quotient(frames * 1_000_000_000, f.rate as int, ns, t);
        }
    }
}

proof fn lemma_divided(a: int, b: int, q: int)
    requires
        0 <= a,
        0 < b,
        q == a / b,
    ensures
        q * b <= a < (q + 1) * b,
{
    vstd::arithmetic::div_mod::lemma_fundamental_div_mod(a, b);
    vstd::arithmetic::div_mod::lemma_mod_bound(a, b);
    assert(q * b == b * q && (q + 1) * b == q * b + b) by (nonlinear_arith);
}

proof fn lemma_one_quotient(a: int, b: int, q: int, r: int)
    requires
        0 < b,
        q * b <= a < (q + 1) * b,
        r * b <= a < (r + 1) * b,
    ensures
        q == r,
{
    assert(q == r) by (nonlinear_arith)
        requires
            0 < b,
            q * b <= a < (q + 1) * b,
            r * b <= a < (r + 1) * b,
    ;
}

/// Packet `i` of a stream is stamped `pts`: the first with 0, another with the
/// time that the decoded bytes of all packets before it take, if that is known.
pub open spec fn stamped(f: Fmt, index: Seq<u32>, i: int, pts: Option<u64>) -> bool {
    if i == 0 {
        pts == Some(0u64)
    } else if has_clock(f) && i <= index.len() {
        pts matches Some(t) && lasts(f, index[i - 1] as int, t as int)
    } else {
        pts is None
    }
}

pub(crate) proof fn lemma_stamped(f: Fmt, index: Seq<u32>, i: int)
    requires
        0 <= i,
    ensures
        stamped(f, index, i, packet_time(Some(f), index, i)),
{
    law_time_of_decoded_bytes(f, 0, 0);
    if 0 < i <= index.len() {
        law_time_of_decoded_bytes(f, index[i - 1], 0);
    }
}

// ---------------------------------------------------------------------------
// Packets.

/// The bytes of one packet; where the format says none, one.
pub open spec fn step_of(f: Fmt) -> int {
    if f.block_align > 0 {
        f.block_align as int
    } else {
        1
    }
}

/// `o` is packet `i` of the bytes `s`, and packet `number` of the stream.
pub open spec fn is_packet(
    o: OutputView,
    f: Fmt,
    index: Seq<u32>,
    s: Seq<u8>,
    i: int,
    number: int,
) -> bool {
    let (from, to) = (i * step_of(f), (i + 1) * step_of(f));
    &&& o matches OutputView::Buffer { data, pts } && stamped(f, index, number, pts) && data
        == s.subrange(
        from,
        if to <= s.len() {
            to
        } else {
            s.len() as int
        },
    )
}

/// The packets of some bytes, one by one.
proof fn lemma_packets(p: ParserView, f: Fmt, s: Seq<u8>)
    requires
        p.fmt == Some(f),
    ensures
        ({
            let all = packets(p, s);
            let n = all.len() as int;
            &&& (n - 1) * step_of(f) < s.len() <= n * step_of(f)
            &&& forall|i: int|
                0 <= i < n ==> is_packet(#[trigger] all[i], f, p.index, s, i, p.next_packet + i)
        }),
{
    let all = packets(p, s);
    let step = step_of(f);
    let len = s.len() as int;
    if len > 0 {
        lemma_last_block(len, step);
    } else {
        vstd::arithmetic::div_mod::lemma_basic_div(step - 1, step);
        assert((0 - 1) * step == 0 - step);
    }
    assert forall|i: int| 0 <= i < all.len() implies is_packet(
        #[trigger] all[i],
        f,
        p.index,
        s,
        i,
        p.next_packet + i,
    ) by {
        lemma_stamped(f, p.index, p.next_packet + i);
    }
}

/// A run with `had` handed out before it, kept folded.
#[verifier::opaque]
spec fn folded(p: ParserView, s: Seq<u8>, had: Seq<OutputView>) -> Run {
    run(p, s).after(had)
}

/// The parser `k` whole packets on.
spec fn packets_on(p: ParserView, f: Fmt, remaining: u32, pad: bool, k: int) -> ParserView {
    ParserView {
        stage: Stage::Data { remaining: (remaining - k * step_of(f)) as u32, pad },
        next_packet: (p.next_packet + k) as u64,
        ..p.moved(k * step_of(f))
    }
}

/// One packet comes out.
proof fn lemma_one_packet(
    p: ParserView,
    f: Fmt,
    s: Seq<u8>,
    had: Seq<OutputView>,
    remaining: u32,
    pad: bool,
)
    requires
        !p.skip,
        p.stage == (Stage::Data { remaining, pad }),
        p.fmt == Some(f),
        step_of(f) <= s.len() < remaining,
        p.next_packet < u64::MAX,
    ensures
        folded(p, s, had) == folded(
            packets_on(p, f, remaining, pad, 1),
            s.skip(step_of(f)),
            had.push(packet(p, s.take(step_of(f)))),
        ),
{
    reveal(folded);
    assert(1 * step_of(f) == step_of(f));
    lemma_run_step(p, s, had);
    let b = s.take(step_of(f));
    assert(had + seq![packet(p, b)] =~= had.push(packet(p, b)));
}

/// Whole packets come out as they come in.
proof fn lemma_whole_packets(
    p: ParserView,
    f: Fmt,
    s: Seq<u8>,
    had: Seq<OutputView>,
    remaining: u32,
    pad: bool,
    k: int,
)
    requires
        !p.skip,
        p.stage == (Stage::Data { remaining, pad }),
        p.fmt == Some(f),
        0 <= k,
        k * step_of(f) <= s.len() < remaining,
        p.next_packet + k <= u64::MAX,
    ensures
        ({
            let used = k * step_of(f);
            folded(p, s, had) == folded(
                packets_on(p, f, remaining, pad, k),
                s.skip(used),
                had + packets(p, s.take(used)),
            )
        }),
    decreases k,
{
    let step = step_of(f);
    let used = k * step;
    if k == 0 {
        assert(0 * step == 0);
        assert(s.skip(0) =~= s);
        vstd::arithmetic::div_mod::lemma_basic_div(step - 1, step);
        assert(packets(p, s.take(0)) =~= Seq::<OutputView>::empty());
        assert(had + Seq::<OutputView>::empty() =~= had);
        assert(packets_on(p, f, remaining, pad, 0) =~= p);
    } else {
        assert((k - 1) * step + step == used && 0 <= (k - 1) * step && 1 * step == step)
            by (nonlinear_arith)
            requires
                0 < k,
                step >= 1,
                used == k * step,
        ;
        let b = s.take(step);
        let left = s.skip(step);
        let next = packets_on(p, f, remaining, pad, 1);
        let more = had.push(packet(p, b));
        lemma_one_packet(p, f, s, had, remaining, pad);
        lemma_whole_packets(next, f, left, more, (remaining - step) as u32, pad, k - 1);
        let body = s.take(used);
        let fewer = ParserView { next_packet: (p.next_packet + 1) as u64, ..p };
        lemma_packets_first(p, body);
        assert(body.take(step) =~= b);
        assert(body.skip(step) =~= left.take((k - 1) * step));
        assert(packets(next, body.skip(step)) =~= packets(fewer, body.skip(step)));
        assert(left.skip((k - 1) * step) =~= s.skip(used));
        assert(more + packets(next, body.skip(step)) =~= had + packets(p, body));
        assert(packets_on(next, f, (remaining - step) as u32, pad, k - 1) =~= packets_on(
            p,
            f,
            remaining,
            pad,
            k,
        ));
    }
}

/// In a `data` chunk, packets of as many bytes as the format says come out as
/// soon as they are there, one per buffer and in order, each with the time at
/// which it starts; what is left waits for more. At the end of the chunk what
/// is left comes out as a shorter packet. Format, index and decoded total stay
/// what they are.
pub proof fn law_packets_come_out_as_they_come_in(v: DemuxView, data: Seq<u8>, f: Fmt)
    requires
        v.parser.stage is Data,
        !v.parser.skip,
        v.parser.fmt == Some(f),
        v.buffered.len() + data.len() <= v.parser.stage->Data_remaining,
        v.parser.next_packet + v.buffered.len() + data.len() <= u64::MAX,
    ensures
        ({
            let s = v.buffered + data;
            let p = v.parser;
            let r = chained(v, data);
            let n = r.out.len() as int;
            let used = s.len() - r.rest.len();
            &&& r.error is None
            &&& forall|i: int|
                0 <= i < n ==> is_packet(#[trigger] r.out[i], f, p.index, s, i, p.next_packet + i)
            &&& is_position(p.position, used, r.parser.position)
            &&& if s.len() < p.stage->Data_remaining {
                &&& n * step_of(f) <= s.len() < (n + 1) * step_of(f)
                &&& r.rest == s.skip(n * step_of(f))
                &&& r.parser == (ParserView {
                    stage: Stage::Data {
                        remaining: (p.stage->Data_remaining - used) as u32,
                        pad: p.stage->Data_pad,
                    },
                    next_packet: (p.next_packet + n) as u64,
                    position: r.parser.position,
                    ..p
                })
            } else {
                &&& (n - 1) * step_of(f) < s.len() <= n * step_of(f)
                &&& r.rest.len() == 0
                &&& r.parser == (ParserView {
                    skip: p.stage->Data_pad,
                    stage: Stage::ChunkHeader,
                    next_packet: (p.next_packet + n) as u64,
                    position: r.parser.position,
                    ..p
                })
            }
        }),
{
    let s = v.buffered + data;
    let p = v.parser;
    let (remaining, pad) = (p.stage->Data_remaining, p.stage->Data_pad);
    let none = Seq::<OutputView>::empty();
    let r = chained(v, data);
    let step = step_of(f);
    let len = s.len() as int;
    if len < remaining {
        let k = len / step;
        lemma_divided(len, step, k);
        assert(0 <= k <= len) by (nonlinear_arith)
            requires
                0 <= len < (k + 1) * step,
                k * step <= len,
                step >= 1,
        ;
        let used = k * step;
        let q = packets_on(p, f, remaining, pad, k);
        let body = s.take(used);
        lemma_whole_packets(p, f, s, none, remaining, pad, k);
        assert((k + 1) * step == used + step) by (nonlinear_arith)
            requires
                used == k * step,
        ;
        assert(q.need() > len - used);
        reveal(folded);
        lemma_run_waits(q, s.skip(used));
        assert(none + r.out =~= r.out);
        assert(none + packets(p, body) + none =~= packets(p, body));
        lemma_packets(p, f, body);
        let n = packets(p, body).len() as int;
        lemma_same_count(n, k, step);
        assert forall|i: int| 0 <= i < n implies is_packet(
            #[trigger] r.out[i],
            f,
            p.index,
            s,
            i,
            p.next_packet + i,
        ) by {
            assert(is_packet(packets(p, body)[i], f, p.index, body, i, p.next_packet + i));
            assert(0 <= i * step && (i + 1) * step <= used && (i + 1) * step == i * step + step)
                by (nonlinear_arith)
                requires
                    0 <= i < k,
                    used == k * step,
                    step >= 1,
            ;
            assert(body.subrange(i * step, (i + 1) * step) =~= s.subrange(
                i * step,
                (i + 1) * step,
            ));
        }
    } else {
        let e = after_data(p, s, pad);
        law_data_comes_out_in_packets(p, s, pad, Seq::<u8>::empty());
        assert(s + Seq::<u8>::empty() =~= s);
        lemma_run_waits(e, Seq::<u8>::empty());
        assert(packets(p, s) + none =~= packets(p, s));
        lemma_packets(p, f, s);
        lemma_packet_count(p, s);
    }
}

/// A number of whole packets.
proof fn lemma_same_count(n: int, k: int, step: int)
    requires
        step >= 1,
        (n - 1) * step < k * step <= n * step,
    ensures
        n == k,
{
    assert(n == k) by (nonlinear_arith)
        requires
            step >= 1,
            (n - 1) * step < k * step <= n * step,
    ;
}

// ---------------------------------------------------------------------------
// The start of a stream.

/// The caps tell the decoder what the format says, number by number; rate and
/// bits per second in 32 bits. The decoder's setup data are the same for all
/// streams.
pub open spec fn is_caps(c: WmaCaps, f: Fmt) -> bool {
    &&& c.wmaversion == 2
    &&& c.channels == f.channels
    &&& c.block_align == f.block_align
    &&& c.depth == f.bits_per_sample
    &&& (c.rate - f.rate) % 0x1_0000_0000 == 0
    &&& (c.bitrate - 8 * f.avg_bytes_per_sec) % 0x1_0000_0000 == 0
    &&& c.codec_data@ == seq![0u8, 0, 0, 0, 0x1f, 0]
}

/// What a stream of format `f` starts with: stream start, caps, and a segment
/// from 0 to the end at normal speed (the bits of 1.0).
pub open spec fn starts_stream(out: Seq<OutputView>, f: Fmt) -> bool {
    &&& out.len() >= 3
    &&& out[0] == OutputView::Event(Event::StreamStart)
    &&& out[1] matches OutputView::Event(Event::WmaCaps(c)) && is_caps(c, f)
    &&& out[2] == OutputView::Event(
        Event::Segment { start: 0, stop: None, rate: 0x3ff0_0000_0000_0000 },
    )
}

/// The caps of a format.
pub proof fn law_caps_tell_the_format(f: Fmt)
    ensures
        is_caps(f.caps(), f),
{
    let c = f.caps();
    assert(c.codec_data@ =~= seq![0u8, 0, 0, 0, 0x1f, 0]);
}

/// The header of a `data` chunk starts the stream, if it has not started, and
/// the packets are due. Where the first bytes of packets are is remembered.
/// Nothing else changes.
pub proof fn law_data_header_starts_the_stream(v: DemuxView, size: u32, f: Fmt)
    requires
        between_chunks(v),
        v.parser.fmt == Some(f),
    ensures
        ({
            let p = v.parser;
            let r = chained(v, data_id() + u32_bytes(size));
            &&& r.error is None
            &&& r.rest.len() == 0
            &&& p.started ==> r.out.len() == 0
            &&& !p.started ==> r.out.len() == 3 && starts_stream(r.out, f)
            &&& r.parser == (ParserView {
                stage: if size > 0 {
                    Stage::Data { remaining: size, pad: size % 2 == 1 }
                } else {
                    Stage::ChunkHeader
                },
                started: true,
                data: r.parser.data,
                position: r.parser.position,
                ..p
            })
            &&& is_position(p.position, 8, r.parser.position)
            &&& p.data is Some || size == 0 ==> r.parser.data == p.data
            &&& p.data is None && size > 0 && p.position + 8 < u64::MAX ==> r.parser.data == Some(
                DataChunk {
                    offset: (p.position + 8) as u64,
                    size,
                    pad: size % 2 == 1,
                    fmt: f,
                },
            )
            &&& p.data is None && p.position + 8 >= u64::MAX ==> r.parser.data is None
        }),
{
    let p = v.parser;
    let none = Seq::<OutputView>::empty();
    let input = data_id() + u32_bytes(size);
    let b = input.take(8);
    lemma_ids();
    assert(v.buffered + input =~= input);
    assert(field(b, 0, 4) =~= data_id());
    lemma_u32(size, b, 4);
    lemma_run_step(p, input, none);
    assert(none + run(p, input).out =~= run(p, input).out);
    assert(input.skip(8) =~= Seq::<u8>::empty());
    law_caps_tell_the_format(f);
    let q = ParserView {
        stage: Stage::Data { remaining: size, pad: odd(size as int) },
        started: true,
        data: p.moved(8).located(size, f),
        ..p.moved(8)
    };
    let out = if p.started {
        none
    } else {
        start_events(f)
    };
    assert(none + out =~= out);
    if size > 0 {
        lemma_run_waits(q, Seq::<u8>::empty());
        assert(out + none =~= out);
    } else {
        let nothing = Seq::<u8>::empty();
        let e = ParserView { skip: false, stage: Stage::ChunkHeader, ..q };
        assert(nothing.take(0) =~= nothing && nothing.skip(0) =~= nothing);
        lemma_run_step(q, nothing, out);
        lemma_run_waits(e, nothing);
        assert(out + none =~= out);
    }
}

/// The pad byte after a `data` chunk, whatever it is, is passed over.
pub proof fn law_pad_byte_is_passed_over(v: DemuxView, pad: u8)
    requires
        v.buffered.len() == 0,
        v.parser.skip,
        v.parser.stage is ChunkHeader,
    ensures
        ({
            let r = chained(v, seq![pad]);
            &&& r.error is None
            &&& r.rest.len() == 0
            &&& r.out.len() == 0
            &&& r.parser == (ParserView {
                skip: false,
                position: r.parser.position,
                ..v.parser
            })
            &&& is_position(v.parser.position, 1, r.parser.position)
        }),
{
    let p = v.parser;
    let none = Seq::<OutputView>::empty();
    let input = seq![pad];
    assert(v.buffered + input =~= input);
    lemma_run_step(p, input, none);
    assert(input.skip(1) =~= Seq::<u8>::empty());
    let q = ParserView { skip: false, ..p.moved(1) };
    lemma_run_waits(q, Seq::<u8>::empty());
    assert(none + run(p, input).out =~= run(p, input).out);
}

} // verus!

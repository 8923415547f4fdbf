//! What holds of xWMA files as a whole: what plays no part, what is refused,
//! and where seeks go.

use crate::bytes::{DATA, DPDS, FMT};
use crate::error::DemuxError;
use crate::events::{Answer, Query};
use crate::files::{
    after_chunk, after_chunks, chunks_out, file_duration, in_data, joined, last_fmt,
    last_index, law_chunks_are_read, law_file_comes_out, law_header_is_read, lemma_data_header,
    lemma_header_fields, lemma_keeps, lemma_known, lemma_position, lemma_without_packets,
    opened, readable, riff_header, start_fmt, without_packets, xwma_file, Chunk,
};
use crate::format::{fmt_of, Fmt};
use crate::laws::packets;
use crate::model::{
    advance, fresh, kind_of, lemma_run_step, lemma_run_waits, odd, rank, run, start_events,
    DataChunk, ParserView, Run, Stage, Step,
};
use crate::output::{Event, OutputView};
use crate::seeking::{at_data, law_one_packet_plays, law_seek_plays_on, seek_event};
use crate::timeline::playing_at;
use crate::xwmademux::{
    answer, chained, duration, flushed, forward, initial, resume_at, resumed, seek_of, segment_of,
    settled, target, DemuxView, Seek,
};
use vstd::prelude::*;

verus! {

// ---------------------------------------------------------------------------
// What plays no part.

/// The parsers differ at most in the position, and in where they have found
/// the first `data` chunk.
pub open spec fn alike(p: ParserView, q: ParserView) -> bool {
    q == (ParserView { position: q.position, data: q.data, ..p })
}

/// Where in the stream a parser is plays no part in what it makes of its
/// input.
pub proof fn law_position_plays_no_part(p: ParserView, q: ParserView, input: Seq<u8>)
    requires
        alike(p, q),
    ensures
        ({
            let (a, b) = (run(p, input), run(q, input));
            &&& alike(a.parser, b.parser)
            &&& a.out == b.out
            &&& a.rest == b.rest
            &&& a.error == b.error
        }),
    decreases input.len(), rank(p),
{
    let n = p.need();
    let none = Seq::<OutputView>::empty();
    if input.len() < n {
        lemma_run_waits(p, input);
        lemma_run_waits(q, input);
    } else {
        let (a, b) = (run(p, input), run(q, input));
        lemma_run_step(p, input, none);
        lemma_run_step(q, input, none);
        assert(none + a.out =~= a.out && none + b.out =~= b.out);
        match (advance(p, input.take(n)), advance(q, input.take(n))) {
            (Step::Go { next: p2, out: o1 }, Step::Go { next: q2, out: o2 }) => {
                assert(o1 =~= o2);
                assert(alike(p2, q2));
                law_position_plays_no_part(p2, q2, input.skip(n));
            },
            _ => {},
        }
    }
}

/// Chunks of no interest leave no trace but in the position.
proof fn lemma_unknown_chunks(p: ParserView, chunks: Seq<Chunk>, known: bool)
    requires
        forall|i: int|
            0 <= i < chunks.len() ==> #[trigger] chunks[i].valid() && chunks[i].is_unknown(),
    ensures
        readable(known, chunks),
        alike(p, after_chunks(p, chunks)),
        chunks_out(p, chunks).len() == 0,
    decreases chunks.len(),
{
    if chunks.len() > 0 {
        let more = chunks.drop_first();
        assert(chunks[0].valid());
        assert forall|i: int| 0 <= i < more.len() implies #[trigger] more[i].valid()
            && more[i].is_unknown() by {
            assert(chunks[i + 1].valid());
        }
        lemma_unknown_chunks(after_chunk(p, chunks[0]), more, known);
    }
}

/// The size in the RIFF header, and unknown chunks between others, change
/// neither what comes out nor the error nor what is known of format, index and
/// duration. The rest of the stream need not be whole.
pub proof fn law_unknown_chunks_play_no_part(
    size: int,
    other_size: int,
    before: Seq<Chunk>,
    unknown: Seq<Chunk>,
    rest: Seq<u8>,
)
    requires
        readable(false, before),
        forall|i: int|
            0 <= i < unknown.len() ==> #[trigger] unknown[i].valid() && unknown[i].is_unknown(),
        joined(before).len() + joined(unknown).len() <= u64::MAX,
    ensures
        ({
            let plain = chained(initial(), riff_header(size) + (joined(before) + rest));
            let filled = chained(
                initial(),
                riff_header(other_size) + (joined(before) + (joined(unknown) + rest)),
            );
            &&& filled.out == plain.out
            &&& filled.error == plain.error
            &&& filled.rest == plain.rest
            &&& alike(plain.parser, filled.parser)
            &&& duration(filled.parser) == duration(plain.parser)
        }),
{
    let one = riff_header(size) + (joined(before) + rest);
    let other = riff_header(other_size) + (joined(before) + (joined(unknown) + rest));
    assert(initial().buffered + one =~= one);
    assert(initial().buffered + other =~= other);
    law_header_is_read(size, joined(before) + rest);
    law_header_is_read(other_size, joined(before) + (joined(unknown) + rest));
    law_chunks_are_read(opened(), before, rest);
    law_chunks_are_read(opened(), before, joined(unknown) + rest);
    let p = after_chunks(opened(), before);
    let q = after_chunks(p, unknown);
    lemma_unknown_chunks(p, unknown, p.fmt is Some);
    law_chunks_are_read(p, unknown, rest);
    law_position_plays_no_part(p, q, rest);
    assert(chunks_out(p, unknown) + run(q, rest).out =~= run(q, rest).out);
}

// ---------------------------------------------------------------------------
// What is refused.

/// A `data` chunk before the format is known, and a `fmt ` chunk that is too
/// small, are refused. What comes before them comes out as it does in a file
/// that is accepted.
pub proof fn law_bad_chunk_is_refused(size: int, before: Seq<Chunk>, c: Chunk, rest: Seq<u8>)
    requires
        readable(false, before),
        joined(before).len() <= u64::MAX,
        c.id.len() == 4,
        c.body.len() <= u32::MAX,
        c.id == FMT@ && c.body.len() < 16 || c.id == DATA@ && last_fmt(None, before) is None,
    ensures
        ({
            let r = chained(initial(), riff_header(size) + (joined(before) + (c.bytes() + rest)));
            &&& r.error == Some(
                if c.id == FMT@ {
                    DemuxError::FmtTooSmall
                } else {
                    DemuxError::DataBeforeFmt
                },
            )
            &&& r.out == chunks_out(opened(), before)
        }),
{
    let none = Seq::<OutputView>::empty();
    let input = c.bytes() + rest;
    let file = riff_header(size) + (joined(before) + input);
    let p = after_chunks(opened(), before);
    assert(initial().buffered + file =~= file);
    law_header_is_read(size, joined(before) + input);
    law_chunks_are_read(opened(), before, input);
    lemma_known(opened(), None, before);
    let left = (c.body + c.padding()) + rest;
    assert(input =~= c.header() + left);
    lemma_header_fields(c, left);
    lemma_run_step(p, input, none);
    assert(none + run(p, input).out =~= run(p, input).out);
    assert(FMT@[0] != DATA@[0]);
    if c.id == FMT@ {
        let len = c.body.len() as int;
        let q = p.moved(8).at(
            Stage::ChunkBody { kind: kind_of(c.id), size: len as u32, pad: odd(len) },
        );
        lemma_run_step(q, left, none);
        assert(none + run(q, left).out =~= run(q, left).out);
    }
    assert(chunks_out(opened(), before) + none =~= chunks_out(opened(), before));
}

// ---------------------------------------------------------------------------
// Where the packets are, and where seeks go.

/// Chunks that follow others.
proof fn lemma_more_chunks(p: ParserView, a: Seq<Chunk>, b: Seq<Chunk>)
    ensures
        joined(a + b) == joined(a) + joined(b),
        after_chunks(p, a + b) == after_chunks(after_chunks(p, a), b),
        chunks_out(p, a + b) == chunks_out(p, a) + chunks_out(after_chunks(p, a), b),
    decreases a.len(),
{
    if a.len() == 0 {
        assert(a + b =~= b);
        assert(joined(a) + joined(b) =~= joined(b));
        assert(chunks_out(p, a) + chunks_out(p, b) =~= chunks_out(p, b));
    } else {
        let q = after_chunk(p, a[0]);
        lemma_more_chunks(q, a.drop_first(), b);
        assert((a + b).drop_first() =~= a.drop_first() + b);
        assert(joined(a + b) =~= joined(a) + joined(b));
        assert(chunks_out(p, a + b) =~= chunks_out(p, a) + chunks_out(after_chunks(p, a), b));
    }
}

/// Chunks that follow others can be read with what those tell.
proof fn lemma_more_readable(f: Option<Fmt>, a: Seq<Chunk>, b: Seq<Chunk>)
    requires
        readable(f is Some, a + b),
    ensures
        readable(f is Some, a),
        readable(last_fmt(f, a) is Some, b),
    decreases a.len(),
{
    if a.len() == 0 {
        assert(a + b =~= b);
    } else {
        assert((a + b).drop_first() =~= a.drop_first() + b);
        assert((a + b)[0] == a[0]);
        let g = if a[0].id == FMT@ {
            Some(fmt_of(a[0].body))
        } else {
            f
        };
        lemma_more_readable(g, a.drop_first(), b);
    }
}

/// The format with which the stream starts, where other chunks follow.
proof fn lemma_start_fmt(f: Option<Fmt>, a: Seq<Chunk>, b: Seq<Chunk>)
    requires
        readable(f is Some, a),
    ensures
        start_fmt(f, a + b) == (if start_fmt(f, a) is Some {
            start_fmt(f, a)
        } else {
            start_fmt(last_fmt(f, a), b)
        }),
    decreases a.len(),
{
    if a.len() == 0 {
        assert(a + b =~= b);
    } else {
        assert((a + b).drop_first() =~= a.drop_first() + b);
        assert((a + b)[0] == a[0]);
        assert(FMT@[0] != DATA@[0]);
        let g = if a[0].id == FMT@ {
            Some(fmt_of(a[0].body))
        } else {
            f
        };
        lemma_start_fmt(g, a.drop_first(), b);
    }
}

/// The chunks of a file whose first packets, if it has any, are in `data`.
pub open spec fn around(before: Seq<Chunk>, data: Chunk, after: Seq<Chunk>) -> Seq<Chunk> {
    before + (seq![data] + after)
}

/// A file whose first packets, if it has any, are in the chunk `data`.
pub open spec fn well_formed(
    size: int,
    before: Seq<Chunk>,
    data: Chunk,
    after: Seq<Chunk>,
) -> bool {
    &&& readable(false, around(before, data, after))
    &&& without_packets(before)
    &&& data.id == DATA@
    &&& xwma_file(size, around(before, data, after)).len() < u64::MAX
}

/// The format of the packets of `data`.
pub open spec fn format_after(before: Seq<Chunk>) -> Fmt {
    last_fmt(None, before).unwrap()
}

/// Where the packets of `data` are.
pub open spec fn data_after(before: Seq<Chunk>, data: Chunk) -> DataChunk {
    DataChunk {
        offset: (12 + joined(before).len() + 8) as u64,
        size: data.body.len() as u32,
        pad: odd(data.body.len() as int),
        fmt: format_after(before),
    }
}

/// The file from its first packet on.
pub open spec fn from_packets(data: Chunk, after: Seq<Chunk>) -> Seq<u8> {
    data.body + (data.padding() + joined(after))
}

/// How a file is laid out.
proof fn lemma_layout(size: int, before: Seq<Chunk>, data: Chunk, after: Seq<Chunk>)
    requires
        data.id.len() == 4,
    ensures
        ({
            let file = xwma_file(size, around(before, data, after));
            let tail = from_packets(data, after);
            &&& joined(around(before, data, after)) == joined(before) + (data.header() + tail)
            &&& data.header() + tail == data.bytes() + joined(after)
            &&& file.len() == 12 + joined(before).len() + 8 + tail.len()
            &&& file.skip(12int + joined(before).len() + 8) == tail
        }),
{
    let p = opened();
    let tail = from_packets(data, after);
    let last = seq![data] + after;
    lemma_more_chunks(p, before, last);
    assert(last.drop_first() =~= after);
    assert(joined(last) == data.bytes() + joined(after));
    assert(data.header() + tail =~= data.bytes() + joined(after));
    let file = xwma_file(size, around(before, data, after));
    assert(file.skip(12int + joined(before).len() + 8) =~= tail);
}

/// The parser in front of the first packet.
proof fn lemma_at_packets(size: int, before: Seq<Chunk>, data: Chunk, after: Seq<Chunk>)
    requires
        well_formed(size, before, data, after),
    ensures
        ({
            let p = after_chunks(opened(), before);
            let q = in_data(p, data);
            let d = data_after(before, data);
            &&& readable(false, before)
            &&& data.valid()
            &&& readable(true, after)
            &&& p.fmt == Some(d.fmt)
            &&& !p.skip
            &&& p.stage is ChunkHeader
            &&& q.data == (if d.size > 0 {
                Some(d)
            } else {
                None
            })
            &&& chunks_out(opened(), before) + (if p.started {
                seq![]
            } else {
                start_events(d.fmt)
            }) == start_events(start_fmt(None, around(before, data, after)).unwrap())
            &&& at_data(q, d)
            &&& d.offset == 12 + joined(before).len() + 8
            &&& d.offset + d.size < u64::MAX
        }),
{
    let last = seq![data] + after;
    let p = opened();
    lemma_more_readable(None, before, last);
    assert(last.drop_first() =~= after);
    assert(last[0] == data);
    lemma_layout(size, before, data, after);
    lemma_known(p, None, before);
    lemma_position(p, before);
    lemma_without_packets(p, before);
    law_chunks_are_read(p, before, seq![]);
    lemma_start_fmt(None, before, last);
    let f = start_fmt(None, around(before, data, after)).unwrap();
    assert(chunks_out(p, before) + (if after_chunks(p, before).started {
        seq![]
    } else {
        start_events(format_after(before))
    }) =~= start_events(f));
}

/// A file with packets in one `data` chunk comes out as stream start, caps and
/// segment, and then its packets; other `data` chunks, which are empty, play a
/// part only in that the first of all starts the stream. The demuxer knows
/// where the packets are and, where index and format tell the time and there is
/// a packet, says how long the stream is and that it can be sought.
pub proof fn law_packets_of_a_file(size: int, before: Seq<Chunk>, data: Chunk, after: Seq<Chunk>)
    requires
        well_formed(size, before, data, after),
        without_packets(after),
    ensures
        ({
            let chunks = around(before, data, after);
            let r = chained(initial(), xwma_file(size, chunks));
            let v = settled(initial(), r);
            let f = format_after(before);
            &&& r.error is None
            &&& r.out == start_events(start_fmt(None, chunks).unwrap()) + packets(
                after_chunks(opened(), before),
                data.body,
            )
            &&& r.parser.data == (if data.body.len() > 0 {
                Some(data_after(before, data))
            } else {
                None
            })
            &&& file_duration(chunks) matches Some(d) ==> {
                &&& answer(v, Query::Duration { in_time: true }) == Answer::Duration(d)
                &&& data.body.len() > 0 && f.timed() ==> answer(
                    v,
                    Query::Seeking { in_time: true },
                ) == (Answer::Seekable { end: d })
            }
        }),
{
    let chunks = around(before, data, after);
    let p = after_chunks(opened(), before);
    let last = seq![data] + after;
    law_file_comes_out(size, chunks);
    lemma_at_packets(size, before, data, after);
    lemma_more_chunks(opened(), before, last);
    assert(last.drop_first() =~= after);
    let q = after_chunk(p, data);
    assert(FMT@[0] != DATA@[0] && DPDS@[1] != DATA@[1]);
    lemma_without_packets(q, after);
    assert(chunks_out(opened(), chunks) =~= start_events(start_fmt(None, chunks).unwrap())
        + packets(p, data.body));
}

/// What is known after a file, and of its packets.
proof fn lemma_after_file(size: int, before: Seq<Chunk>, data: Chunk, after: Seq<Chunk>)
    requires
        well_formed(size, before, data, after),
        last_index(None, after) is None,
    ensures
        ({
            let p = in_data(after_chunks(opened(), before), data);
            let q = after_chunks(opened(), around(before, data, after));
            &&& q.index == p.index
            &&& q.dpds_total == p.dpds_total
            &&& data.body.len() > 0 ==> q.data == p.data
            &&& last_index(None, before) is Some ==> q.dpds_total is Some
        }),
{
    let p = after_chunks(opened(), before);
    let last = seq![data] + after;
    lemma_at_packets(size, before, data, after);
    lemma_more_chunks(opened(), before, last);
    assert(last.drop_first() =~= after);
    assert(FMT@[0] != DATA@[0] && DPDS@[1] != DATA@[1]);
    lemma_keeps(after_chunk(p, data), after);
    lemma_known(opened(), None, before);
}

/// A run, kept folded.
#[verifier::opaque]
spec fn played(p: ParserView, input: Seq<u8>) -> Run {
    run(p, input)
}

/// A file opens with stream start, caps and segment, and then its packets are
/// due.
proof fn lemma_file_opens(size: int, before: Seq<Chunk>, data: Chunk, after: Seq<Chunk>)
    requires
        well_formed(size, before, data, after),
    ensures
        ({
            let file = xwma_file(size, around(before, data, after));
            let p = in_data(after_chunks(opened(), before), data);
            played(fresh(), file) == played(p, from_packets(data, after)).after(
                start_events(start_fmt(None, around(before, data, after)).unwrap()),
            )
        }),
{
    reveal(played);
    let p = after_chunks(opened(), before);
    let tail = from_packets(data, after);
    let rest = data.header() + tail;
    lemma_at_packets(size, before, data, after);
    lemma_layout(size, before, data, after);
    law_header_is_read(size, joined(before) + rest);
    law_chunks_are_read(opened(), before, rest);
    lemma_data_header(p, data, tail);
    let start = if p.started {
        seq![]
    } else {
        start_events(format_after(before))
    };
    let out = run(in_data(p, data), tail).out;
    assert(chunks_out(opened(), before) + (start + out) =~= (chunks_out(opened(), before) + start)
        + out);
}

/// What is left after the first outputs.
proof fn lemma_skip_outputs(r: Run, first: Seq<OutputView>, start: Seq<OutputView>)
    ensures
        r.after(first).after(start).out.skip((start.len() + first.len()) as int) == r.out,
{
    assert(r.after(first).after(start).out.skip((start.len() + first.len()) as int) =~= r.out);
}

/// Straight playback, and playback from packet `k` on.
proof fn lemma_replay(
    size: int,
    before: Seq<Chunk>,
    data: Chunk,
    after: Seq<Chunk>,
    q: ParserView,
    k: int,
    time: u64,
)
    requires
        well_formed(size, before, data, after),
        last_index(None, after) is None,
        q == after_chunks(opened(), around(before, data, after)),
        0 <= k,
        k * format_after(before).packet_size() < data.body.len(),
    ensures
        ({
            let file = xwma_file(size, around(before, data, after));
            let d = data_after(before, data);
            let r = resume_at(d, k, time);
            let whole = played(fresh(), file);
            let again = played(
                resumed(q, r),
                from_packets(data, after).skip(k * d.fmt.packet_size()),
            );
            &&& again.error == whole.error
            &&& again.rest == whole.rest
            &&& again.out == whole.out.skip(3 + k)
        }),
{
    let d = data_after(before, data);
    let p = in_data(after_chunks(opened(), before), data);
    let n = d.fmt.packet_size();
    let tail = from_packets(data, after);
    let skipped = k * n;
    let first = packets(p, tail.take(skipped));
    let again = played(resumed(q, resume_at(d, k, time)), tail.skip(skipped));
    lemma_at_packets(size, before, data, after);
    lemma_after_file(size, before, data, after);
    lemma_file_opens(size, before, data, after);
    assert(0 <= skipped) by (nonlinear_arith)
        requires
            0 <= k,
            n >= 1,
            skipped == k * n,
    ;
    assert(played(p, tail) == again.after(first)) by {
        reveal(played);
        law_seek_plays_on(p, q, d, k, time, tail);
    }
    assert(first.len() == k) by {
        vstd::arithmetic::div_mod::lemma_div_multiples_vanish_fancy(k, n - 1, n);
        assert(n * k == k * n) by (nonlinear_arith);
    }
    let f = start_fmt(None, around(before, data, after)).unwrap();
    lemma_skip_outputs(again, first, start_events(f));
}

/// A demuxer that goes on after a seek runs from the packet it was sent to.
proof fn lemma_resumes(v: DemuxView, s: Seek, input: Seq<u8>)
    requires
        v.pending == Some(s),
    ensures
        chained(flushed(v), input) == run(resumed(v.parser, s.resume), input),
{
    assert(flushed(v).buffered + input =~= input);
}

/// Where a seek in a file goes.
proof fn lemma_seek_target(
    size: int,
    before: Seq<Chunk>,
    data: Chunk,
    after: Seq<Chunk>,
    time: u64,
) -> (k: int)
    requires
        well_formed(size, before, data, after),
        last_index(None, before) is Some,
        last_index(None, after) is None,
        format_after(before).timed(),
        data.body.len() > 0,
    ensures
        ({
            let file = xwma_file(size, around(before, data, after));
            let q = after_chunks(opened(), around(before, data, after));
            let d = data_after(before, data);
            let skipped = k * d.fmt.packet_size();
            &&& target(q, time) == Some(resume_at(d, k, time))
            &&& 0 <= k <= u32::MAX
            &&& 0 <= skipped < data.body.len()
            &&& d.offset + skipped < file.len()
            &&& file.len() < u64::MAX
            &&& file.skip(d.offset + skipped) == from_packets(data, after).skip(skipped)
        }),
{
    let file = xwma_file(size, around(before, data, after));
    let q = after_chunks(opened(), around(before, data, after));
    let d = data_after(before, data);
    let f = d.fmt;
    lemma_at_packets(size, before, data, after);
    lemma_after_file(size, before, data, after);
    lemma_layout(size, before, data, after);
    law_one_packet_plays(f, q.index, d.size as int, time as int, 0);
    let k = playing_at(f, q.index, d.size as int, time as int);
    let skipped = k * f.packet_size();
    assert(k <= d.size) by (nonlinear_arith)
        requires
            0 <= k,
            k * f.packet_size() < d.size,
            f.packet_size() >= 1,
    ;
    assert(file.skip(d.offset + skipped) =~= from_packets(data, after).skip(skipped));
    k
}

/// After a file has played, a seek to a time sends upstream to the first byte
/// of the packet that plays then. Given the file from there on, the demuxer
/// hands out again all that it handed out from that packet on, bytes and time
/// stamps. No chunk after the packets may hold another index: the demuxer
/// would go by that one.
pub proof fn law_seek_in_a_file(
    size: int,
    before: Seq<Chunk>,
    data: Chunk,
    after: Seq<Chunk>,
    time: u64,
    rate: u64,
)
    requires
        well_formed(size, before, data, after),
        last_index(None, before) is Some,
        last_index(None, after) is None,
        format_after(before).timed(),
        data.body.len() > 0,
        forward(rate),
    ensures
        ({
            let file = xwma_file(size, around(before, data, after));
            let whole = chained(initial(), file);
            let v = settled(initial(), whole);
            let event = seek_event(time, rate);
            let seek = seek_of(v, event).unwrap();
            let sought = DemuxView { pending: Some(seek), ..v };
            let again = chained(flushed(sought), file.skip(seek.resume.offset as int));
            &&& seek_of(v, event) is Some
            &&& seek.resume.offset < file.len()
            &&& segment_of(seek) == (Event::Segment { start: time, stop: None, rate })
            &&& again.error is None
            &&& again.rest.len() == 0
            &&& again.out == whole.out.skip(3 + seek.resume.packet)
        }),
{
    let chunks = around(before, data, after);
    let file = xwma_file(size, chunks);
    let whole = chained(initial(), file);
    let v = settled(initial(), whole);
    let k = lemma_seek_target(size, before, data, after, time);
    law_file_comes_out(size, chunks);
    lemma_replay(size, before, data, after, whole.parser, k, time);
    let seek = Seek { resume: resume_at(data_after(before, data), k, time), stop: None, rate };
    lemma_resumes(
        DemuxView { pending: Some(seek), ..v },
        seek,
        file.skip(seek.resume.offset as int),
    );
    reveal(played);
    assert(initial().buffered + file =~= file);
}

} // verus!

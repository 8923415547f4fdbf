//! From the numbers in an xWMA file to what comes out, for as much of the file
//! as has come in.

use crate::events::{Answer, Query};
use crate::format::Fmt;
use crate::laws::law_split_keeps_errors;
use crate::model::{lemma_run_waits, saturating, ParserView, Stage};
use crate::moments::law_duration_is_told;
use crate::output::OutputView;
use crate::written::{
    between_chunks, data_id, dpds_id, fmt_id, has_clock, is_packet, lasts,
    law_data_header_starts_the_stream, law_format_is_read_as_written, law_header_decides,
    law_index_is_read_as_written, law_packets_come_out_as_they_come_in,
    law_pad_byte_is_passed_over, law_part_of_a_chunk_tells_nothing, starts_stream, step_of,
    u32_bytes, wave_format, words, written_chunk,
};
use crate::xwmademux::{answer, chained, initial, settled, DemuxView};
use vstd::prelude::*;

verus! {

/// `RIFF`, a size, and `XWMA`.
pub open spec fn written_header(size: u32) -> Seq<u8> {
    seq![0x52u8, 0x49, 0x46, 0x46] + u32_bytes(size) + seq![0x58u8, 0x57, 0x4d, 0x41]
}

/// A file as the numbers that are written in it.
pub struct Written {
    /// The size in the RIFF header.
    pub size: u32,
    pub fmt: Fmt,
    /// What follows the format in its chunk.
    pub more: Seq<u8>,
    /// The pad byte of that chunk.
    pub fmt_pad: u8,
    pub index: Seq<u32>,
    pub data: Seq<u8>,
    /// The pad byte of the `data` chunk.
    pub data_pad: u8,
}

impl Written {
    /// The sizes fit.
    pub open spec fn valid(self) -> bool {
        &&& 16 + self.more.len() <= u32::MAX
        &&& 4 * self.index.len() <= u32::MAX
        &&& self.data.len() <= u32::MAX
    }

    pub open spec fn fmt_chunk(self) -> Seq<u8> {
        written_chunk(fmt_id(), wave_format(self.fmt) + self.more, self.fmt_pad)
    }

    pub open spec fn dpds_chunk(self) -> Seq<u8> {
        written_chunk(dpds_id(), words(self.index), 0)
    }

    pub open spec fn data_chunk(self) -> Seq<u8> {
        written_chunk(data_id(), self.data, self.data_pad)
    }

    /// What comes before the `data` chunk.
    pub open spec fn head(self) -> Seq<u8> {
        written_header(self.size) + self.fmt_chunk() + self.dpds_chunk()
    }

    pub open spec fn bytes(self) -> Seq<u8> {
        self.head() + self.data_chunk()
    }

    /// How many bytes of the packets are among the first `n` bytes.
    pub open spec fn packet_bytes(self, n: int) -> int {
        let got = n - self.head().len() - 8;
        if got <= self.data.len() {
            got
        } else {
            self.data.len() as int
        }
    }
}

/// A demuxer that has taken `data`.
spec fn fed_with(v: DemuxView, data: Seq<u8>) -> DemuxView {
    settled(v, chained(v, data))
}

/// Two buffers, one after the other, where the first is accepted.
proof fn lemma_then(v: DemuxView, a: Seq<u8>, b: Seq<u8>)
    requires
        chained(v, a).error is None,
    ensures
        ({
            let w = fed_with(v, a);
            &&& fed_with(v, a + b) == fed_with(w, b)
            &&& chained(v, a + b).error == chained(w, b).error
            &&& chained(v, a + b).out == chained(v, a).out + chained(w, b).out
        }),
{
    law_split_keeps_errors(v, a, b);
}

/// The header of a file.
proof fn lemma_header(size: u32)
    ensures
        ({
            let r = chained(initial(), written_header(size));
            let v = fed_with(initial(), written_header(size));
            &&& r.error is None
            &&& r.out.len() == 0
            &&& between_chunks(v)
            &&& v.parser == (ParserView {
                stage: Stage::ChunkHeader,
                position: 12,
                ..initial().parser
            })
        }),
{
    let s = written_header(size);
    let v = initial();
    assert(v.buffered + s =~= s);
    law_header_decides(v, s);
    let q = ParserView {
        stage: Stage::ChunkHeader,
        position: saturating(v.parser.position, 12),
        ..v.parser
    };
    assert(s.skip(12) =~= Seq::<u8>::empty());
    assert(s.skip(12) + Seq::<u8>::empty() =~= Seq::<u8>::empty());
    lemma_run_waits(q, Seq::<u8>::empty());
}

/// What is known before the `data` chunk.
proof fn lemma_head(w: Written)
    requires
        w.valid(),
        w.index.len() > 0,
    ensures
        ({
            let r = chained(initial(), w.head());
            let v = fed_with(initial(), w.head());
            &&& r.error is None
            &&& r.out.len() == 0
            &&& between_chunks(v)
            &&& v.parser.fmt == Some(w.fmt)
            &&& v.parser.index == w.index
            &&& v.parser.dpds_total == Some(w.index.last())
            &&& !v.parser.started
            &&& v.parser.next_packet == 0
        }),
{
    let a = written_header(w.size);
    let v1 = fed_with(initial(), a);
    let v2 = fed_with(v1, w.fmt_chunk());
    let none = Seq::<u8>::empty();
    lemma_header(w.size);
    law_format_is_read_as_written(v1, w.fmt, w.more, w.fmt_pad);
    lemma_then(initial(), a, w.fmt_chunk());
    assert(words(w.index) + none =~= words(w.index));
    law_index_is_read_as_written(v2, w.index, none, 0);
    lemma_then(initial(), a + w.fmt_chunk(), w.dpds_chunk());
}

/// While head is not whole, there is no error, nothing comes out, and the
/// decoded total is not known.
proof fn lemma_part_of_the_head(w: Written, n: int)
    requires
        w.valid(),
        w.index.len() > 0,
        0 <= n < w.head().len(),
    ensures
        ({
            let r = chained(initial(), w.head().take(n));
            &&& r.error is None
            &&& r.out.len() == 0
            &&& r.parser.dpds_total is None
        }),
{
    let s = w.head().take(n);
    let v = initial();
    let a = written_header(w.size);
    let fmt_end = 12 + w.fmt_chunk().len();
    assert(v.buffered + s =~= s);
    lemma_header(w.size);
    if n < 12 {
        law_header_decides(v, s);
    } else if n < fmt_end {
        let part = w.fmt_chunk().take(n - 12);
        assert(s =~= a + part);
        lemma_then(v, a, part);
        let body = wave_format(w.fmt) + w.more;
        law_part_of_a_chunk_tells_nothing(fed_with(v, a), fmt_id(), body, w.fmt_pad, n - 12);
    } else {
        let v1 = fed_with(v, a);
        let b = a + w.fmt_chunk();
        let part = w.dpds_chunk().take(n - fmt_end);
        law_format_is_read_as_written(v1, w.fmt, w.more, w.fmt_pad);
        lemma_then(v, a, w.fmt_chunk());
        assert(s =~= b + part);
        lemma_then(v, b, part);
        law_part_of_a_chunk_tells_nothing(
            fed_with(v, b),
            dpds_id(),
            words(w.index),
            0,
            n - fmt_end,
        );
    }
}

/// What comes out of the first `n` bytes of a file, if its `data` chunk has
/// started: stream start, caps and segment, and the packets that are whole; at
/// the end of the chunk also what is left.
pub open spec fn comes_out(w: Written, n: int, out: Seq<OutputView>) -> bool {
    let got = w.packet_bytes(n);
    let packets = out.len() - 3;
    &&& starts_stream(out, w.fmt)
    &&& if got < w.data.len() {
        packets * step_of(w.fmt) <= got < (packets + 1) * step_of(w.fmt)
    } else {
        (packets - 1) * step_of(w.fmt) < got <= packets * step_of(w.fmt)
    }
    &&& forall|i: int|
        0 <= i < packets ==> is_packet(
            #[trigger] out[3 + i],
            w.fmt,
            w.index,
            w.data.take(got),
            i,
            i,
        )
}

/// The start of a stream and then its packets.
proof fn lemma_put_together(w: Written, got: int, start: Seq<OutputView>, packets: Seq<OutputView>)
    requires
        0 <= got <= w.data.len(),
        start.len() == 3,
        starts_stream(start, w.fmt),
        ({
            let n = packets.len() as int;
            let step = step_of(w.fmt);
            &&& got < w.data.len() ==> n * step <= got < (n + 1) * step
            &&& got == w.data.len() ==> (n - 1) * step < got <= n * step
        }),
        forall|i: int|
            0 <= i < packets.len() ==> is_packet(
                #[trigger] packets[i],
                w.fmt,
                w.index,
                w.data.take(got),
                i,
                i,
            ),
    ensures
        comes_out(w, w.head().len() + 8 + got, start + packets),
{
    let out = start + packets;
    assert(out.len() - 3 == packets.len());
    assert forall|i: int| 0 <= i < packets.len() implies is_packet(
        #[trigger] out[3 + i],
        w.fmt,
        w.index,
        w.data.take(got),
        i,
        i,
    ) by {
        assert(out[3 + i] == packets[i]);
    }
}

/// The packets of a file, from the header of its `data` chunk on.
proof fn lemma_packets_of(w: Written, v: DemuxView, got: int)
    requires
        w.valid(),
        between_chunks(v),
        v.parser.fmt == Some(w.fmt),
        v.parser.index == w.index,
        !v.parser.started,
        v.parser.next_packet == 0,
        0 <= got <= w.data.len(),
    ensures
        ({
            let input = data_id() + u32_bytes(w.data.len() as u32) + w.data.take(got);
            let r = chained(v, input);
            let u = fed_with(v, input);
            &&& r.error is None
            &&& comes_out(w, w.head().len() + 8 + got, r.out)
            &&& r.parser.fmt == v.parser.fmt
            &&& r.parser.dpds_total == v.parser.dpds_total
            &&& got == w.data.len() ==> {
                &&& u.buffered.len() == 0
                &&& r.parser.stage is ChunkHeader
                &&& r.parser.skip == (w.data.len() % 2 == 1)
            }
        }),
{
    let size = w.data.len() as u32;
    let h = data_id() + u32_bytes(size);
    let body = w.data.take(got);
    let first = chained(v, h);
    let u = fed_with(v, h);
    law_data_header_starts_the_stream(v, size, w.fmt);
    lemma_then(v, h, body);
    let second = chained(u, body);
    if size > 0 {
        law_packets_come_out_as_they_come_in(u, body, w.fmt);
        assert(u.buffered + body =~= body);
    } else {
        assert(u.buffered + body =~= Seq::<u8>::empty());
        lemma_run_waits(u.parser, Seq::<u8>::empty());
        assert((0 - 1) * step_of(w.fmt) == 0 - step_of(w.fmt));
    }
    lemma_put_together(w, got, first.out, second.out);
}

/// The first `m` bytes of the `data` chunk.
proof fn lemma_data_chunk(w: Written, v: DemuxView, m: int)
    requires
        w.valid(),
        between_chunks(v),
        v.parser.fmt == Some(w.fmt),
        v.parser.index == w.index,
        !v.parser.started,
        v.parser.next_packet == 0,
        0 <= m <= w.data_chunk().len(),
    ensures
        ({
            let r = chained(v, w.data_chunk().take(m));
            &&& r.error is None
            &&& r.parser.fmt == v.parser.fmt
            &&& r.parser.dpds_total == v.parser.dpds_total
            &&& m < 8 ==> r.out.len() == 0
            &&& m >= 8 ==> comes_out(w, w.head().len() + m, r.out)
        }),
{
    let part = w.data_chunk().take(m);
    let size = w.data.len() as u32;
    if m < 8 {
        assert(v.buffered + part =~= part);
        lemma_run_waits(v.parser, part);
    } else {
        let got = w.packet_bytes(w.head().len() + m);
        let packets = data_id() + u32_bytes(size) + w.data.take(got);
        lemma_packets_of(w, v, got);
        if m - 8 <= size {
            assert(part =~= packets);
        } else {
            let x = fed_with(v, packets);
            assert(part =~= packets + seq![w.data_pad]);
            lemma_then(v, packets, seq![w.data_pad]);
            law_pad_byte_is_passed_over(x, w.data_pad);
            assert(chained(v, part).out =~= chained(v, packets).out);
        }
    }
}

/// A file is read as it was written, for as much of it as has come in. There is
/// no error. Before the header of the `data` chunk nothing comes out. From then
/// on the stream starts with caps that tell the numbers of the format, and the
/// bytes of the packets come out in packets of the size that was written, each
/// with its time. Once the index has been read, and not before, a query for the
/// play time is answered with the time of its last number, however much of the
/// packets has come in.
pub proof fn law_file_is_read_as_written(w: Written, n: int)
    requires
        w.valid(),
        w.index.len() > 0,
        0 <= n <= w.bytes().len(),
    ensures
        ({
            let r = chained(initial(), w.bytes().take(n));
            let v = settled(initial(), r);
            let told = answer(v, Query::Duration { in_time: true });
            &&& r.error is None
            &&& n < w.head().len() + 8 ==> r.out.len() == 0
            &&& n >= w.head().len() + 8 ==> comes_out(w, n, r.out)
            &&& n < w.head().len() || !has_clock(w.fmt) ==> told is Refuse
            &&& n >= w.head().len() && has_clock(w.fmt) ==> (told matches Answer::Duration(t)
                && lasts(w.fmt, w.index.last() as int, t as int))
        }),
{
    let s = w.bytes().take(n);
    let known = w.head().len() as int;
    let v = fed_with(initial(), s);
    law_duration_is_told(v, true);
    if n < known {
        assert(s =~= w.head().take(n));
        lemma_part_of_the_head(w, n);
    } else {
        let u = fed_with(initial(), w.head());
        let part = w.data_chunk().take(n - known);
        lemma_head(w);
        assert(s =~= w.head() + part);
        lemma_then(initial(), w.head(), part);
        lemma_data_chunk(w, u, n - known);
        assert(chained(initial(), s).out =~= chained(u, part).out);
    }
}

} // verus!

//! What the demuxer answers and does at any moment, whatever has come in: its
//! answers to queries, seeks, the end of the input, and flushes.

use crate::events::{Answer, Query, SeekStop, SrcEvent};
use crate::model::{ParserView, Stage};
use crate::output::{Event, OutputView};
use crate::seeking::law_one_packet_plays;
use crate::timeline::{lemma_last_block, packet_count, playing_at};
use crate::written::{
    has_clock, is_position, lasts, law_time_of_decoded_bytes, lemma_stamped, stamped, step_of,
};
use crate::xwmademux::{
    after_announcement, announces, answer, chained, drained, duration, flushed, initial,
    last_words, seek_of, segment_of, settled, target, DemuxView,
};
use vstd::prelude::*;

verus! {

/// A new demuxer has seen nothing, knows nothing, and is asked for nothing.
pub proof fn law_new_demuxer_knows_nothing()
    ensures
        ({
            let v = initial();
            &&& v.buffered.len() == 0
            &&& v.pending is None
            &&& v.stop is None
            &&& !v.announced
            &&& v.in_bytes
            &&& !v.parser.skip
            &&& v.parser.stage is RiffHeader
            &&& v.parser.fmt is None
            &&& v.parser.dpds_total is None
            &&& v.parser.index.len() == 0
            &&& !v.parser.started
            &&& v.parser.next_packet == 0
            &&& v.parser.position == 0
            &&& v.parser.data is None
        }),
{
}

/// Input is for the parser: it changes nothing of seeks, of what has been
/// announced, and of what is known of upstream.
pub proof fn law_input_is_for_the_parser(v: DemuxView, data: Seq<u8>)
    ensures
        ({
            let r = chained(v, data);
            let w = settled(v, r);
            &&& w.buffered == r.rest
            &&& w.parser == r.parser
            &&& w.pending == v.pending
            &&& w.stop == v.stop
            &&& w.announced == v.announced
            &&& w.in_bytes == v.in_bytes
        }),
{
}

/// The play time is told at any moment from when the format and the decoded
/// total are known, and depends on nothing else: not on what is buffered, nor
/// on how much of the packets has come in. It is told in time only.
pub proof fn law_duration_is_told(v: DemuxView, in_time: bool)
    ensures
        ({
            let told = answer(v, Query::Duration { in_time });
            match (v.parser.fmt, v.parser.dpds_total) {
                (Some(f), Some(total)) => if has_clock(f) {
                    &&& duration(v.parser) matches Some(t) && lasts(f, total as int, t as int)
                    &&& in_time ==> (told matches Answer::Duration(t) && lasts(
                        f,
                        total as int,
                        t as int,
                    ))
                    &&& !in_time ==> told is Refuse
                } else {
                    duration(v.parser) is None && told is Refuse
                },
                _ => duration(v.parser) is None && told is Refuse,
            }
        }),
{
    match (v.parser.fmt, v.parser.dpds_total) {
        (Some(f), Some(total)) => law_time_of_decoded_bytes(f, total, 0),
        _ => {},
    }
}

/// Times can be mapped to packets: the first packet has been reached, and
/// index and format tell the time.
pub open spec fn knows_its_packets(p: ParserView) -> bool {
    &&& p.dpds_total is Some
    &&& p.data matches Some(d) && has_clock(d.fmt) && d.size > 0 && d.offset + d.size <= u64::MAX
}

/// The stream is said to be seekable, from 0 to its play time, exactly where
/// that is known, times can be mapped to packets and upstream counts bytes. It
/// is said in time only. Other queries are left to the pad.
pub proof fn law_seekable_is_told(v: DemuxView, in_time: bool)
    ensures
        ({
            let told = answer(v, Query::Seeking { in_time });
            let known = v.parser.fmt matches Some(f) && has_clock(f);
            &&& told is Seekable <==> in_time && v.in_bytes && known && knows_its_packets(v.parser)
            &&& told is Seekable || told is Default
            &&& told matches Answer::Seekable { end } ==> lasts(
                v.parser.fmt.unwrap(),
                v.parser.dpds_total.unwrap() as int,
                end as int,
            )
        }),
        answer(v, Query::Other) is Default,
{
    match (v.parser.fmt, v.parser.dpds_total) {
        (Some(f), Some(total)) => law_time_of_decoded_bytes(f, total, 0),
        _ => {},
    }
    match v.parser.data {
        Some(d) => law_time_of_decoded_bytes(d.fmt, 0, 0),
        None => {},
    }
}

/// A seek is served exactly where it is in time, flushes, plays forward (the
/// bits of a float above 0), sets a start, does not stop before it, and times
/// can be mapped to bytes of upstream. It goes to the start of a packet: all
/// packets before that one have ended by the time that is asked for, and the
/// packet itself has not, unless it is the last or the last whose start is
/// known.
pub proof fn law_seek_is_served(v: DemuxView, event: SrcEvent)
    ensures
        match event {
            SrcEvent::Other => seek_of(v, event) is None,
            SrcEvent::Seek { in_time, flush, rate, start, stop } => {
                let end = match stop {
                    SeekStop::At(e) => Some(e),
                    SeekStop::Keep => v.stop,
                    _ => None,
                };
                let asked = in_time && flush && 0 < rate <= 0x7ff0_0000_0000_0000 && stop
                    != SeekStop::Other && start is Some && (end matches Some(e) ==> start.unwrap()
                    <= e);
                let seek = seek_of(v, event);
                &&& seek is Some <==> asked && v.in_bytes && knows_its_packets(v.parser)
                &&& seek matches Some(s) ==> {
                    let d = v.parser.data.unwrap();
                    let index = v.parser.index;
                    let k = s.resume.packet;
                    let ahead = k * step_of(d.fmt);
                    let time = s.resume.time;
                    &&& s.stop == end
                    &&& s.rate == rate
                    &&& Some(time) == start
                    &&& s.resume.fmt == d.fmt
                    &&& s.resume.pad == d.pad
                    &&& 0 <= ahead < d.size
                    &&& s.resume.offset == d.offset + ahead
                    &&& s.resume.remaining == d.size - ahead
                    &&& k <= index.len()
                    &&& forall|j: int, t: int|
                        0 <= j < k && #[trigger] lasts(d.fmt, index[j] as int, t) ==> t <= time
                    &&& ahead + step_of(d.fmt) >= d.size || k == index.len() || forall|t: int|
                        #[trigger] lasts(d.fmt, index[k as int] as int, t) ==> time < t
                }
            },
        },
{
    match v.parser.data {
        Some(d) => law_time_of_decoded_bytes(d.fmt, 0, 0),
        None => {},
    }
    match seek_of(v, event) {
        Some(s) => {
            let d = v.parser.data.unwrap();
            let index = v.parser.index;
            let time = s.resume.time;
            let (size, step) = (d.size as int, step_of(d.fmt));
            let k = playing_at(d.fmt, index, size, time as int);
            assert(target(v.parser, time) == Some(s.resume));
            law_one_packet_plays(d.fmt, index, size, time as int, 0);
            lemma_last_block(size, step);
            assert(0 <= k <= size) by (nonlinear_arith)
                requires
                    0 <= k,
                    k * step < size,
                    step >= 1,
            ;
            assert forall|j: int, t: int|
                0 <= j < k && #[trigger] lasts(d.fmt, index[j] as int, t) implies t <= time by {
                law_time_of_decoded_bytes(d.fmt, index[j], t);
            }
            let count = packet_count(d.fmt, size);
            if k * step + step < size {
                assert(k < count - 1) by (nonlinear_arith)
                    requires
                        k * step + step < size,
                        size <= count * step,
                        step >= 1,
                ;
                if k < index.len() {
                    assert forall|t: int| #[trigger] lasts(d.fmt, index[k] as int, t) implies time
                        < t by {
                        law_time_of_decoded_bytes(d.fmt, index[k], t);
                    }
                }
            }
        },
        None => {},
    }
}

/// At the end of the input, the bytes of an unfinished packet that are held come
/// out as one, stamped as the next packet of the stream; the rest of its chunk
/// stays due. Where none are held, nothing happens.
pub proof fn law_end_of_input(v: DemuxView)
    ensures
        ({
            let p = v.parser;
            let n = if p.stage is Data && v.buffered.len() <= p.stage->Data_remaining {
                v.buffered.len() as int
            } else if p.stage is Data {
                p.stage->Data_remaining as int
            } else {
                0
            };
            let w = drained(v);
            if n == 0 {
                w == v && last_words(v).len() == 0
            } else {
                &&& last_words(v).len() == 1
                &&& last_words(v)[0] matches OutputView::Buffer { data, pts } && data
                    == v.buffered.take(n) && (match p.fmt {
                    Some(f) => stamped(f, p.index, p.next_packet as int, pts),
                    None => pts == (if p.next_packet == 0 {
                        Some(0u64)
                    } else {
                        None
                    }),
                })
                &&& w == (DemuxView {
                    buffered: v.buffered.skip(n),
                    parser: ParserView {
                        stage: Stage::Data {
                            remaining: (p.stage->Data_remaining - n) as u32,
                            pad: false,
                        },
                        next_packet: w.parser.next_packet,
                        position: w.parser.position,
                        ..p
                    },
                    ..v
                })
                &&& is_position(p.next_packet, 1, w.parser.next_packet)
                &&& is_position(p.position, n, w.parser.position)
            }
        }),
{
    match v.parser.fmt {
        Some(f) => lemma_stamped(f, v.parser.index, v.parser.next_packet as int),
        None => {},
    }
}

/// A flush that no seek asked for makes the demuxer a new one, but for what it
/// knows of upstream. A flush that a seek asked for takes it to the packet that
/// the seek goes to: what was buffered is gone, what is known of the stream
/// stays, and a segment from the time that was asked for, with the stop and the
/// rate of the seek, is handed out.
pub proof fn law_flush(v: DemuxView)
    ensures
        match v.pending {
            None => flushed(v) == (DemuxView { in_bytes: v.in_bytes, ..initial() }),
            Some(s) => {
                let w = flushed(v);
                &&& w.buffered.len() == 0
                &&& w.pending is None
                &&& w.stop == s.stop
                &&& w.announced == v.announced
                &&& w.in_bytes == v.in_bytes
                &&& !w.parser.skip
                &&& w.parser.stage == (Stage::Data {
                    remaining: s.resume.remaining,
                    pad: s.resume.pad,
                })
                &&& w.parser.fmt == Some(s.resume.fmt)
                &&& w.parser.started
                &&& w.parser.next_packet == s.resume.packet
                &&& w.parser.position == s.resume.offset
                &&& w.parser.dpds_total == v.parser.dpds_total
                &&& w.parser.index == v.parser.index
                &&& w.parser.data == v.parser.data
                &&& segment_of(s) == (Event::Segment {
                    start: s.resume.time,
                    stop: s.stop,
                    rate: s.rate,
                })
            },
        },
{
}

/// The play time is announced at the first moment at which the decoded total is
/// known, and never again. To announce it changes nothing else.
pub proof fn law_announcement(v: DemuxView)
    ensures
        announces(v) <==> !v.announced && v.parser.dpds_total is Some,
        after_announcement(v) == (DemuxView {
            announced: v.announced || v.parser.dpds_total is Some,
            ..v
        }),
        !announces(after_announcement(v)),
{
}

} // verus!

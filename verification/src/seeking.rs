//! What holds of time stamps and seeks.

use crate::events::{Answer, Query, SeekStop, SrcEvent};
use crate::format::Fmt;
use crate::laws::packets;
use crate::model::{advance, packet, run, DataChunk, ParserView, Stage, Step};
use crate::output::OutputView;
use crate::timeline::{
    blocks, last_timed, lemma_last_block, lemma_one_plays, packet_count, packet_time, playing_at,
    plays_at,
};
use crate::xwmademux::{
    answer, chained, drained, duration, flushed, forward, new_stop, resume_at, resumed, seek_of,
    settled, target, DemuxView,
};
use vstd::prelude::*;

verus! {

/// The entries of an index never go down.
pub open spec fn sorted(index: Seq<u32>) -> bool {
    forall|i: int, j: int| 0 <= i <= j < index.len() ==> index[i] <= index[j]
}

/// More decoded bytes never take less time.
pub proof fn law_time_goes_up(f: Fmt, a: int, b: int)
    requires
        f.timed(),
        0 <= a <= b <= u32::MAX,
    ensures
        0 <= f.nanos(a) <= f.nanos(b) <= u64::MAX,
{
    let w = f.bytes_per_frame();
    assert(w > 0) by (nonlinear_arith)
        requires
            w == f.channels * (if f.bits_per_sample < 8 {
                1
            } else {
                f.bits_per_sample as int / 8
            }),
            w != 0,
    ;
    vstd::arithmetic::div_mod::lemma_div_is_ordered(a, b, w);
    vstd::arithmetic::div_mod::lemma_div_pos_is_pos(a, w);
    vstd::arithmetic::div_mod::lemma_div_is_ordered_by_denominator(b, 1, w);
    vstd::arithmetic::div_mod::lemma_div_is_ordered(
        a / w * 1_000_000_000,
        b / w * 1_000_000_000,
        f.rate as int,
    );
    vstd::arithmetic::div_mod::lemma_div_pos_is_pos(a / w * 1_000_000_000, f.rate as int);
    vstd::arithmetic::div_mod::lemma_div_is_ordered_by_denominator(
        b / w * 1_000_000_000,
        1,
        f.rate as int,
    );
}

/// The time stamps of packets never go down, where the index does not.
pub proof fn law_packets_in_order(fmt: Option<Fmt>, index: Seq<u32>, i: int, j: int)
    requires
        sorted(index),
        0 <= i <= j,
        packet_time(fmt, index, j) is Some,
    ensures
        packet_time(fmt, index, i) is Some,
        packet_time(fmt, index, i).unwrap() <= packet_time(fmt, index, j).unwrap(),
{
    if 0 < i {
        law_time_goes_up(fmt.unwrap(), index[i - 1] as int, index[j - 1] as int);
    }
}

/// No packet starts after the end of the stream, where the index is sorted
/// and ends with the size of the whole.
pub proof fn law_packets_within_duration(p: ParserView, i: int)
    requires
        sorted(p.index),
        p.index.len() > 0,
        p.dpds_total == Some(p.index.last()),
        duration(p) is Some,
        0 <= i <= p.index.len(),
    ensures
        packet_time(p.fmt, p.index, i) is Some,
        packet_time(p.fmt, p.index, i).unwrap() <= duration(p).unwrap(),
{
    if 0 < i {
        law_time_goes_up(p.fmt.unwrap(), p.index[i - 1] as int, p.index.last() as int);
    }
}

proof fn lemma_plays_from(f: Fmt, index: Seq<u32>, size: int, time: int, k: int)
    requires
        0 <= k <= last_timed(f, index, size),
        forall|j: int| 0 <= j < k ==> f.nanos(#[trigger] index[j] as int) <= time,
    ensures
        exists|l: int| plays_at(f, index, size, time, l),
    decreases last_timed(f, index, size) - k,
{
    if k < last_timed(f, index, size) && f.nanos(index[k] as int) <= time {
        lemma_plays_from(f, index, size, time, k + 1);
    } else {
        assert(plays_at(f, index, size, time, k));
    }
}

/// At any time exactly one packet of a nonempty `data` chunk plays.
pub proof fn law_one_packet_plays(f: Fmt, index: Seq<u32>, size: int, time: int, k: int)
    requires
        size > 0,
    ensures
        plays_at(f, index, size, time, playing_at(f, index, size, time)),
        plays_at(f, index, size, time, k) ==> k == playing_at(f, index, size, time),
        0 <= playing_at(f, index, size, time) * f.packet_size() < size,
{
    lemma_last_block(size, f.packet_size());
    lemma_plays_from(f, index, size, time, 0);
    let l = playing_at(f, index, size, time);
    if plays_at(f, index, size, time, k) {
        lemma_one_plays(f, index, size, time, k, l);
    }
    assert(0 <= l * f.packet_size() <= (packet_count(f, size) - 1) * f.packet_size())
        by (nonlinear_arith)
        requires
            0 <= l <= packet_count(f, size) - 1,
            f.packet_size() > 0,
    ;
}

/// A flushing seek to a time, to play from there to the end.
pub open spec fn seek_event(time: u64, rate: u64) -> SrcEvent {
    SrcEvent::Seek { in_time: true, flush: true, rate, start: Some(time), stop: SeekStop::Unset }
}

/// Where upstream does not count bytes, as behind a FUZ demuxer, which has a
/// segment in time, seeks and questions about them are left to the pad,
/// whatever comes in.
pub proof fn law_only_byte_streams_are_sought(
    v: DemuxView,
    data: Seq<u8>,
    event: SrcEvent,
    in_time: bool,
)
    requires
        !v.in_bytes,
    ensures
        seek_of(v, event) is None,
        answer(v, Query::Seeking { in_time }) == Answer::Default,
        !settled(v, chained(v, data)).in_bytes,
        !drained(v).in_bytes,
        !flushed(v).in_bytes,
{
}

/// A stream that says it is seekable is: it serves every flushing seek in time
/// that plays forward and does not stop before it starts, wherever it goes.
pub proof fn law_seekable_streams_are_sought(v: DemuxView, time: u64, rate: u64, stop: SeekStop)
    requires
        answer(v, Query::Seeking { in_time: true }) is Seekable,
        forward(rate),
        match new_stop(v.stop, stop) {
            Some(Some(e)) => time <= e,
            Some(None) => true,
            None => false,
        },
    ensures
        ({
            let event = SrcEvent::Seek {
                in_time: true,
                flush: true,
                rate,
                start: Some(time),
                stop,
            };
            seek_of(v, event) matches Some(s) && s.resume.time == time && s.rate == rate
                && Some(s.stop) == new_stop(v.stop, stop)
        }),
{
}

/// A seek goes to the start of a packet inside the `data` chunk. That packet
/// has started by the time that is asked for, and, where the index is sorted,
/// no later one has.
pub proof fn law_seek_finds_the_packet(p: ParserView, time: u64)
    requires
        target(p, time) is Some,
    ensures
        ({
            let d = p.data.unwrap();
            let r = target(p, time).unwrap();
            &&& r.offset == d.offset + r.packet * d.fmt.packet_size()
            &&& d.offset <= r.offset < d.offset + d.size
            &&& r.remaining == d.offset + d.size - r.offset
            &&& packet_time(Some(d.fmt), p.index, r.packet as int) is Some
            &&& packet_time(Some(d.fmt), p.index, r.packet as int).unwrap() <= time
            &&& sorted(p.index) ==> forall|j: int|
                r.packet < j <= last_timed(d.fmt, p.index, d.size as int)
                    ==> (#[trigger] packet_time(Some(d.fmt), p.index, j)).unwrap() > time
        }),
{
    let d = p.data.unwrap();
    let f = d.fmt;
    let r = target(p, time).unwrap();
    let last = last_timed(f, p.index, d.size as int);
    law_one_packet_plays(f, p.index, d.size as int, time as int, 0);
    let k = playing_at(f, p.index, d.size as int, time as int);
    assert(k <= d.size) by (nonlinear_arith)
        requires
            0 <= k,
            k * f.packet_size() < d.size,
            f.packet_size() >= 1,
    ;
    if 0 < k {
        let e = p.index[k - 1] as int;
        law_time_goes_up(f, e, e);
    }
    if sorted(p.index) {
        assert forall|j: int| r.packet < j <= last implies (#[trigger] packet_time(
            Some(f),
            p.index,
            j,
        )).unwrap() > time by {
            law_time_goes_up(f, p.index[k] as int, p.index[j - 1] as int);
        }
    }
}

/// A seek to the time stamp of a packet goes to that packet, where the time
/// stamps go up.
pub proof fn law_seek_to_a_time_stamp(f: Fmt, index: Seq<u32>, size: int, k: int)
    requires
        f.timed(),
        size > 0,
        0 <= k <= last_timed(f, index, size),
        forall|i: int, j: int|
            0 <= i < j <= last_timed(f, index, size) ==> (#[trigger] packet_time(
                Some(f),
                index,
                i,
            )).unwrap() < (#[trigger] packet_time(Some(f), index, j)).unwrap(),
    ensures
        playing_at(f, index, size, packet_time(Some(f), index, k).unwrap() as int) == k,
{
    let fmt = Some(f);
    let time = packet_time(fmt, index, k).unwrap() as int;
    assert forall|j: int| 0 <= j < k implies f.nanos(#[trigger] index[j] as int) <= time by {
        law_time_goes_up(f, index[j] as int, index[j] as int);
        if j + 1 < k {
            assert(packet_time(fmt, index, j + 1).unwrap() < packet_time(fmt, index, k).unwrap());
        }
    }
    if k < last_timed(f, index, size) {
        assert(packet_time(fmt, index, k).unwrap() < packet_time(fmt, index, k + 1).unwrap());
        law_time_goes_up(f, index[k] as int, index[k] as int);
    }
    assert(plays_at(f, index, size, time, k));
    law_one_packet_plays(f, index, size, time, k);
}

/// The first packets of a chunk, one more at a time.
proof fn lemma_packets_last(p: ParserView, body: Seq<u8>, k: int)
    requires
        0 < k,
        k * p.packet_size() <= body.len(),
    ensures
        ({
            let size = p.packet_size();
            &&& 0 <= (k - 1) * size
            &&& (k - 1) * size + size == k * size
            &&& packets(p, body.take(k * size)) == packets(p, body.take((k - 1) * size)).push(
                OutputView::Buffer {
                    data: body.subrange((k - 1) * size, k * size),
                    pts: packet_time(p.fmt, p.index, p.next_packet + (k - 1)),
                },
            )
        }),
{
    let size = p.packet_size();
    assert((k - 1) * size + size == k * size) by (nonlinear_arith);
    assert(0 <= (k - 1) * size) by (nonlinear_arith)
        requires
            0 < k,
            size >= 1,
    ;
    assert(blocks(k * size, size) == k && blocks((k - 1) * size, size) == k - 1) by {
        vstd::arithmetic::div_mod::lemma_div_multiples_vanish_fancy(k, size - 1, size);
        vstd::arithmetic::div_mod::lemma_div_multiples_vanish_fancy(k - 1, size - 1, size);
        assert(size * k == k * size && size * (k - 1) == (k - 1) * size) by (nonlinear_arith);
    }
    let all = packets(p, body.take(k * size));
    let fewer = packets(p, body.take((k - 1) * size));
    let last = OutputView::Buffer {
        data: body.subrange((k - 1) * size, k * size),
        pts: packet_time(p.fmt, p.index, p.next_packet + (k - 1)),
    };
    assert forall|i: int| 0 <= i < all.len() implies all[i] == fewer.push(last)[i] by {
        assert(0 <= i * size && (i + 1) * size <= k * size && (i + 1) * size == i * size + size)
            by (nonlinear_arith)
            requires
                0 <= i < k,
                size >= 1,
        ;
        assert(body.take(k * size).subrange(i * size, (i + 1) * size) =~= body.subrange(
            i * size,
            (i + 1) * size,
        ));
        if i < k - 1 {
            assert((i + 1) * size <= (k - 1) * size) by (nonlinear_arith)
                requires
                    i + 1 <= k - 1,
                    size >= 1,
            ;
            assert(body.take((k - 1) * size).subrange(i * size, (i + 1) * size) =~= body.subrange(
                i * size,
                (i + 1) * size,
            ));
        }
    }
    assert(all =~= fewer.push(last));
}

/// `p` is where the `data` chunk `d` starts.
pub open spec fn at_data(p: ParserView, d: DataChunk) -> bool {
    &&& !p.skip
    &&& p.stage == (Stage::Data { remaining: d.size, pad: d.pad })
    &&& p.fmt == Some(d.fmt)
    &&& p.started
    &&& p.next_packet == 0
    &&& p.position == d.offset
}

/// A seek goes on where playback would have been: from the start of the
/// `data` chunk, playback hands out the packets before packet `k`, and then
/// what a demuxer hands out that has been sent to packet `k` and is given the
/// stream from there on.
pub proof fn law_seek_plays_on(
    p: ParserView,
    q: ParserView,
    d: DataChunk,
    k: int,
    time: u64,
    body: Seq<u8>,
)
    requires
        at_data(p, d),
        q.index == p.index,
        q.dpds_total == p.dpds_total,
        q.data == p.data,
        0 <= k,
        k * d.fmt.packet_size() < d.size,
        k * d.fmt.packet_size() <= body.len(),
        d.offset + k * d.fmt.packet_size() <= u64::MAX,
    ensures
        ({
            let skipped = k * d.fmt.packet_size();
            run(p, body) == run(resumed(q, resume_at(d, k, time)), body.skip(skipped)).after(
                packets(p, body.take(skipped)),
            )
        }),
    decreases k,
{
    let size = d.fmt.packet_size();
    assert(p.packet_size() == size);
    if k == 0 {
        assert(0 * size == 0);
        assert(body.skip(0) =~= body);
        vstd::arithmetic::div_mod::lemma_basic_div(size - 1, size);
        assert(packets(p, body.take(0)) =~= seq![]);
        let here = resumed(q, resume_at(d, 0, time));
        assert(here =~= p);
        assert(Seq::<OutputView>::empty() + run(p, body).out =~= run(p, body).out);
    } else {
        lemma_packets_last(p, body, k);
        let before = (k - 1) * size;
        law_seek_plays_on(p, q, d, k - 1, time, body);
        let here = resumed(q, resume_at(d, k - 1, time));
        let next = resumed(q, resume_at(d, k, time));
        let input = body.skip(before);
        assert(k <= d.size) by (nonlinear_arith)
            requires
                0 <= k,
                k * size < d.size,
                size >= 1,
        ;
        assert(here.need() == size);
        assert(input.take(size) =~= body.subrange(before, k * size));
        assert(input.skip(size) =~= body.skip(k * size));
        match advance(here, input.take(size)) {
            Step::Go { next: n, out } => {
                assert(n =~= next);
                assert(out =~= seq![packet(here, input.take(size))]);
                let had = packets(p, body.take(before));
                let r = run(next, body.skip(k * size));
                assert(had + (out + r.out) =~= packets(p, body.take(k * size)) + r.out);
            },
            Step::Fail { .. } => {},
        }
    }
}

} // verus!

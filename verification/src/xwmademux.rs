//! The xWMA demuxer: a streaming parser for the RIFF container that emits an
//! `audio/x-wma` elementary stream, one packet per buffer.
//!
//! The pads, and the pushing of what the demuxer returns, are the caller's.

use crate::bytes::{copy_range, is_word, read_le32, DATA, DPDS, FMT, RIFF, XWMA};
use crate::error::DemuxError;
use crate::events::{
    Answer, EventPlan, Query, SeekStop, SinkEvent, SrcAction, SrcEvent, StateChange,
};
use crate::format::{Fmt, WAVE_FORMAT_WMAUDIO2};
use crate::model::{
    advance, entries, fresh, lemma_run_step, lemma_run_waits, packet, rank, run, saturating,
    start_events, ChunkKind, DataChunk, ParserView, Run, Stage, Step,
};
use crate::output::{
    make_whole_segment, push_output, views, Event, Output, OutputView, Packet,
};
use crate::timeline::{packet_at, playing_at, time_of_packet};
use vstd::prelude::*;

verus! {

/// The packet at which playback goes on after a seek.
#[derive(Clone, Copy, Debug, PartialEq, Eq)]
pub struct Resume {
    /// The format of the packets.
    pub fmt: Fmt,
    /// Byte offset in the stream of the first packet to come.
    pub offset: u64,
    /// Bytes of the `data` chunk from there on.
    pub remaining: u32,
    /// A pad byte follows them.
    pub pad: bool,
    /// The number of the first packet to come.
    pub packet: u64,
    /// The time that was asked for, in nanoseconds.
    pub time: u64,
}

/// A seek that upstream has been asked for.
#[derive(Clone, Copy, Debug, PartialEq, Eq)]
pub struct Seek {
    pub resume: Resume,
    /// Where playback is to stop, in nanoseconds, if not at the end.
    pub stop: Option<u64>,
    /// The bits of the rate.
    pub rate: u64,
}

/// A demuxer as a value.
#[verifier::ext_equal]
pub struct DemuxView {
    /// Input that the parser has not consumed.
    pub buffered: Seq<u8>,
    pub parser: ParserView,
    /// A seek that upstream has been asked for.
    pub pending: Option<Seek>,
    /// Where playback is to stop, in nanoseconds, if not at the end.
    pub stop: Option<u64>,
    /// The duration has been announced.
    pub announced: bool,
    /// Upstream counts the bytes of the stream, and so can be sent to one.
    pub in_bytes: bool,
}

/// A demuxer that has seen nothing.
pub open spec fn initial() -> DemuxView {
    DemuxView {
        buffered: seq![],
        parser: fresh(),
        pending: None,
        stop: None,
        announced: false,
        in_bytes: true,
    }
}

/// What the parser makes of the buffered input and then `data`.
pub open spec fn chained(v: DemuxView, data: Seq<u8>) -> Run {
    run(v.parser, v.buffered + data)
}

/// The demuxer after a run of its parser.
pub open spec fn settled(v: DemuxView, r: Run) -> DemuxView {
    DemuxView { buffered: r.rest, parser: r.parser, ..v }
}

/// The play time of the whole stream, in nanoseconds: known once both the
/// format and the decoded size are.
pub open spec fn duration(p: ParserView) -> Option<u64> {
    match (p.fmt, p.dpds_total) {
        (Some(f), Some(total)) => if f.timed() {
            Some(f.nanos(total as int) as u64)
        } else {
            None
        },
        _ => None,
    }
}

/// The duration is to be announced: it has not been, and the index is known.
pub open spec fn announces(v: DemuxView) -> bool {
    v.parser.dpds_total is Some && !v.announced
}

/// The demuxer after it has been asked whether to announce the duration.
pub open spec fn after_announcement(v: DemuxView) -> DemuxView {
    DemuxView { announced: v.announced || announces(v), ..v }
}

/// Times can be mapped to packets: these have been reached, there is one, index
/// and format tell the time, and every packet has an offset below the largest
/// `u64`.
pub open spec fn seekable(p: ParserView) -> bool {
    &&& p.dpds_total is Some
    &&& p.data matches Some(d) && d.fmt.timed() && d.size > 0 && d.offset + d.size <= u64::MAX
}

/// The answer to a query: the duration once it is known, and that the stream
/// is seekable in time once it is.
pub open spec fn answer(v: DemuxView, query: Query) -> Answer {
    match query {
        Query::Duration { in_time } => match duration(v.parser) {
            Some(d) => if in_time {
                Answer::Duration(d)
            } else {
                Answer::Refuse
            },
            None => Answer::Refuse,
        },
        Query::Seeking { in_time } => match duration(v.parser) {
            Some(d) => if in_time && v.in_bytes && seekable(v.parser) {
                Answer::Seekable { end: d }
            } else {
                Answer::Default
            },
            None => Answer::Default,
        },
        Query::Other => Answer::Default,
    }
}

/// Playback that goes on at packet `k` of the `data` chunk, for a seek to
/// `time`.
pub open spec fn resume_at(d: DataChunk, k: int, time: u64) -> Resume {
    Resume {
        fmt: d.fmt,
        offset: (d.offset + k * d.fmt.packet_size()) as u64,
        remaining: (d.size - k * d.fmt.packet_size()) as u32,
        pad: d.pad,
        packet: k as u64,
        time,
    }
}

/// Where a seek to `time` goes: to the packet that plays then.
pub open spec fn target(p: ParserView, time: u64) -> Option<Resume> {
    if seekable(p) {
        let d = p.data.unwrap();
        Some(resume_at(d, playing_at(d.fmt, p.index, d.size as int, time as int), time))
    } else {
        None
    }
}

/// A 64-bit float with these bits is above 0.
pub open spec fn forward(rate: u64) -> bool {
    0 < rate <= 0x7ff0_0000_0000_0000
}

/// Where playback stops after a seek, if it stopped at `old` before: `Some` of
/// a time or of the end; `None` where the seek does not tell.
pub open spec fn new_stop(old: Option<u64>, stop: SeekStop) -> Option<Option<u64>> {
    match stop {
        SeekStop::Keep => Some(old),
        SeekStop::At(e) => Some(Some(e)),
        SeekStop::Unset => Some(None),
        SeekStop::Other => None,
    }
}

/// The seek that an event asks for, if the demuxer serves it: it flushes,
/// plays forward, sets a time to go to, and does not stop before that.
/// Upstream must count bytes: one that has a clock of its own is left to see
/// to seeks itself.
pub open spec fn seek_of(v: DemuxView, event: SrcEvent) -> Option<Seek> {
    match event {
        SrcEvent::Seek { in_time: true, flush: true, rate, start: Some(time), stop } => match (
            target(v.parser, time),
            new_stop(v.stop, stop),
        ) {
            (Some(resume), Some(end)) => if v.in_bytes && forward(rate) && (end matches Some(e)
                ==> time <= e) {
                Some(Seek { resume, stop: end, rate })
            } else {
                None
            },
            _ => None,
        },
        _ => None,
    }
}

/// The parser at the first packet after a seek.
pub open spec fn resumed(p: ParserView, r: Resume) -> ParserView {
    ParserView {
        skip: false,
        stage: Stage::Data { remaining: r.remaining, pad: r.pad },
        fmt: Some(r.fmt),
        started: true,
        next_packet: r.packet,
        position: r.offset,
        ..p
    }
}

/// The segment that playback is in after a seek.
pub open spec fn segment_of(s: Seek) -> Event {
    Event::Segment { start: s.resume.time, stop: s.stop, rate: s.rate }
}

/// The demuxer after upstream has flushed: at the packet that a seek went to,
/// or, where there was no seek, back at the start of a stream.
pub open spec fn flushed(v: DemuxView) -> DemuxView {
    match v.pending {
        Some(s) => DemuxView {
            buffered: seq![],
            parser: resumed(v.parser, s.resume),
            pending: None,
            stop: s.stop,
            ..v
        },
        None => DemuxView { in_bytes: v.in_bytes, ..initial() },
    }
}

/// The bytes of an unfinished packet that are held at the end of the input.
pub open spec fn held(v: DemuxView) -> Seq<u8> {
    match v.parser.stage {
        Stage::Data { remaining, .. } => if v.buffered.len() <= remaining {
            v.buffered
        } else {
            v.buffered.take(remaining as int)
        },
        _ => seq![],
    }
}

/// The demuxer after the end of the input: what was held has been handed out.
pub open spec fn drained(v: DemuxView) -> DemuxView {
    let n = held(v).len() as int;
    match v.parser.stage {
        Stage::Data { remaining, .. } => if n == 0 {
            v
        } else {
            DemuxView {
                buffered: v.buffered.skip(n),
                parser: ParserView {
                    stage: Stage::Data { remaining: (remaining - n) as u32, pad: false },
                    next_packet: saturating(v.parser.next_packet, 1),
                    ..v.parser.moved(n)
                },
                ..v
            }
        },
        _ => v,
    }
}

/// What is handed out at the end of the input.
pub open spec fn last_words(v: DemuxView) -> Seq<OutputView> {
    if held(v).len() == 0 {
        seq![]
    } else {
        seq![packet(v.parser, held(v))]
    }
}

/// The xWMA demuxer.
pub struct XwmaDemux {
    /// Unconsumed input bytes.
    buf: Vec<u8>,
    skip: bool,
    stage: Stage,
    fmt: Option<Fmt>,
    dpds_total: Option<u32>,
    index: Vec<u32>,
    started: bool,
    next_packet: u64,
    position: u64,
    data: Option<DataChunk>,
    pending: Option<Seek>,
    stop: Option<u64>,
    announced_duration: bool,
    in_bytes: bool,
}

impl View for XwmaDemux {
    type V = DemuxView;

    closed spec fn view(&self) -> DemuxView {
        DemuxView {
            buffered: self.buf@,
            parser: ParserView {
                skip: self.skip,
                stage: self.stage,
                fmt: self.fmt,
                dpds_total: self.dpds_total,
                index: self.index@,
                started: self.started,
                next_packet: self.next_packet,
                position: self.position,
                data: self.data,
            },
            pending: self.pending,
            stop: self.stop,
            announced: self.announced_duration,
            in_bytes: self.in_bytes,
        }
    }
}

impl Default for XwmaDemux {
    fn default() -> (demux: Self)
        ensures
            demux@ == initial(),
    {
        XwmaDemux {
            buf: Vec::new(),
            skip: false,
            stage: Stage::RiffHeader,
            fmt: None,
            dpds_total: None,
            index: Vec::new(),
            started: false,
            next_packet: 0,
            position: 0,
            data: None,
            pending: None,
            stop: None,
            announced_duration: false,
            in_bytes: true,
        }
    }
}

impl XwmaDemux {
    /// How many bytes the parser needs to go on.
    fn need(&self) -> (n: u64)
        ensures
            n == self@.parser.need(),
    {
        if self.skip {
            return 1;
        }
        match self.stage {
            Stage::RiffHeader => 12,
            Stage::ChunkHeader => 8,
            Stage::ChunkBody { size, pad, .. } => if pad {
                size as u64 + 1
            } else {
                size as u64
            },
            Stage::Data { remaining, .. } => {
                let block_align: u64 = match self.fmt {
                    Some(f) => if f.block_align == 0 {
                        1
                    } else {
                        f.block_align as u64
                    },
                    None => 1,
                };
                if block_align <= remaining as u64 {
                    block_align
                } else {
                    remaining as u64
                }
            },
        }
    }

    /// Takes note of `n` consumed bytes.
    fn advance_position(&mut self, n: u64)
        ensures
            final(self)@ == (DemuxView { parser: old(self)@.parser.moved(n as int), ..old(self)@ }),
    {
        self.position = self.position.saturating_add(n);
    }

    /// Reads the WAVEFORMATEX of a `fmt ` chunk of `size` bytes.
    fn parse_fmt(&mut self, body: &[u8], size: u32) -> (result: Result<(), DemuxError>)
        requires
            size <= body@.len(),
        ensures
            size < 16 ==> result == Err::<(), DemuxError>(DemuxError::FmtTooSmall) && final(self)@
                == old(self)@,
            size >= 16 ==> result == Ok::<(), DemuxError>(()) && final(self)@ == (DemuxView {
                parser: ParserView {
                    fmt: Some(crate::format::fmt_of(body@)),
                    ..old(self)@.parser
                },
                ..old(self)@
            }),
    {
        if size < 16 {
            return Err(DemuxError::FmtTooSmall);
        }
        self.fmt = Some(Fmt::read(body));
        Ok(())
    }

    /// Reads the index of a `dpds` chunk of `size` bytes.
    fn parse_dpds(&mut self, body: &[u8], size: u32)
        requires
            4 <= size <= body@.len(),
        ensures
            final(self)@ == (DemuxView {
                parser: ParserView {
                    dpds_total: Some(crate::bytes::le32(body@, size - 4) as u32),
                    index: entries(body@, size as int / 4),
                    ..old(self)@.parser
                },
                ..old(self)@
            }),
    {
        self.dpds_total = Some(read_le32(body, size as usize - 4));
        let len: usize = body.len();
        let count: usize = size as usize / 4;
        let mut index: Vec<u32> = Vec::new();
        let mut i: usize = 0;
        while i < count
            invariant
                i <= count,
                4 * count <= len == body@.len(),
                index@ =~= entries(body@, i as int),
            decreases count - i,
        {
            index.push(read_le32(body, 4 * i));
            i = i + 1;
        }
        self.index = index;
    }

    /// Hands out stream start, caps and segment.
    fn start_stream(&mut self, fmt: Fmt, outputs: &mut Vec<Output>)
        ensures
            final(self)@ == (DemuxView {
                parser: ParserView { started: true, ..old(self)@.parser },
                ..old(self)@
            }),
            views(final(outputs)@) == views(old(outputs)@) + start_events(fmt),
    {
        push_output(outputs, Output::Event(Event::StreamStart));
        push_output(outputs, Output::Event(Event::WmaCaps(fmt.wma_caps())));
        push_output(outputs, Output::Event(make_whole_segment()));
        self.started = true;
        assert(views(outputs@) =~= views(old(outputs)@) + start_events(fmt));
    }

    /// Hands out the bytes as the next packet.
    fn emit_packet(&mut self, bytes: Vec<u8>, outputs: &mut Vec<Output>)
        ensures
            final(self)@ == (DemuxView {
                parser: ParserView {
                    next_packet: saturating(old(self)@.parser.next_packet, 1),
                    ..old(self)@.parser.moved(bytes@.len() as int)
                },
                ..old(self)@
            }),
            views(final(outputs)@) == views(old(outputs)@).push(
                packet(old(self)@.parser, bytes@),
            ),
    {
        let pts: Option<u64> = time_of_packet(&self.fmt, &self.index, self.next_packet);
        self.advance_position(bytes.len() as u64);
        self.next_packet = self.next_packet.saturating_add(1);
        push_output(outputs, Output::Buffer(Packet { data: bytes, pts }));
    }

    /// Reads a chunk header.
    fn open_chunk(&mut self, b: &[u8], outputs: &mut Vec<Output>) -> (result: Result<
        (),
        (DemuxError, usize),
    >)
        requires
            b@.len() == 8,
        ensures
            match crate::model::open_chunk(old(self)@.parser, b@) {
                Step::Go { next, out } => {
                    &&& result is Ok
                    &&& final(self)@ == (DemuxView { parser: next, ..old(self)@ })
                    &&& views(final(outputs)@) == views(old(outputs)@) + out
                },
                Step::Fail { error, used } => {
                    &&& result == Err::<(), (DemuxError, usize)>((error, used as usize))
                    &&& final(self)@ == old(self)@
                    &&& views(final(outputs)@) == views(old(outputs)@)
                },
            },
    {
        let size: u32 = read_le32(b, 4);
        let pad: bool = size % 2 == 1;
        if is_word(b, 0, DATA) {
            let fmt: Fmt = match self.fmt {
                Some(f) => f,
                None => return Err((DemuxError::DataBeforeFmt, 8)),
            };
            self.advance_position(8);
            if !self.started {
                self.start_stream(fmt, outputs);
            }
            if self.data.is_none() && size > 0 && self.position < u64::MAX {
                self.data = Some(DataChunk { offset: self.position, size, pad, fmt });
            }
            self.stage = Stage::Data { remaining: size, pad };
        } else {
            self.advance_position(8);
            let kind: ChunkKind = if is_word(b, 0, FMT) {
                ChunkKind::Fmt
            } else if is_word(b, 0, DPDS) {
                ChunkKind::Dpds
            } else {
                ChunkKind::Other
            };
            self.stage = Stage::ChunkBody { kind, size, pad };
        }
        Ok(())
    }

    /// Reads the body of a chunk other than `data`.
    fn close_chunk(&mut self, b: &[u8], kind: ChunkKind, size: u32) -> (result: Result<
        (),
        (DemuxError, usize),
    >)
        requires
            size <= b@.len(),
        ensures
            match crate::model::close_chunk(old(self)@.parser, b@, kind, size) {
                Step::Go { next, out } => {
                    &&& result is Ok
                    &&& out.len() == 0
                    &&& final(self)@ == (DemuxView { parser: next, ..old(self)@ })
                },
                Step::Fail { error, used } => {
                    &&& result == Err::<(), (DemuxError, usize)>((error, used as usize))
                    &&& final(self)@ == old(self)@
                },
            },
    {
        match kind {
            ChunkKind::Fmt => {
                match self.parse_fmt(b, size) {
                    Ok(()) => {},
                    Err(e) => return Err((e, 0)),
                }
            },
            ChunkKind::Dpds => if size >= 4 {
                self.parse_dpds(b, size);
            },
            ChunkKind::Other => {},
        }
        self.advance_position(b.len() as u64);
        self.stage = Stage::ChunkHeader;
        Ok(())
    }

    /// Makes the step for which the parser has the bytes `b`.
    fn step(&mut self, b: &[u8], outputs: &mut Vec<Output>) -> (result: Result<
        (),
        (DemuxError, usize),
    >)
        requires
            b@.len() == old(self)@.parser.need(),
        ensures
            match advance(old(self)@.parser, b@) {
                Step::Go { next, out } => {
                    &&& result is Ok
                    &&& final(self)@ == (DemuxView { parser: next, ..old(self)@ })
                    &&& views(final(outputs)@) == views(old(outputs)@) + out
                },
                Step::Fail { error, used } => {
                    &&& result == Err::<(), (DemuxError, usize)>((error, used as usize))
                    &&& 0 <= used <= b@.len()
                    &&& final(self)@ == old(self)@
                    &&& views(final(outputs)@) == views(old(outputs)@)
                },
            },
    {
        assert(views(old(outputs)@) + Seq::<OutputView>::empty() =~= views(old(outputs)@));
        if self.skip {
            self.advance_position(1);
            self.skip = false;
            return Ok(());
        }
        match self.stage {
            Stage::RiffHeader => {
                if !is_word(b, 0, RIFF) || !is_word(b, 8, XWMA) {
                    return Err((DemuxError::NotXwma, 0));
                }
                self.advance_position(12);
                self.stage = Stage::ChunkHeader;
                Ok(())
            },
            Stage::ChunkHeader => self.open_chunk(b, outputs),
            Stage::ChunkBody { kind, size, .. } => self.close_chunk(b, kind, size),
            Stage::Data { remaining, pad } => {
                let taken: usize = b.len();
                if taken > 0 {
                    self.emit_packet(copy_range(b, 0, taken), outputs);
                    assert(crate::bytes::field(b@, 0, taken as int) =~= b@);
                    assert(views(outputs@) =~= views(old(outputs)@) + seq![
                        packet(old(self)@.parser, b@),
                    ]);
                }
                if taken as u64 == remaining as u64 {
                    self.skip = pad;
                    self.stage = Stage::ChunkHeader;
                } else {
                    self.stage = Stage::Data { remaining: remaining - taken as u32, pad };
                }
                Ok(())
            },
        }
    }

    /// Makes as much progress as the buffered bytes allow.
    fn parse(&mut self, outputs: &mut Vec<Output>) -> (result: Result<(), DemuxError>)
        ensures
            ({
                let r = run(old(self)@.parser, old(self)@.buffered);
                &&& final(self)@ == settled(old(self)@, r)
                &&& views(final(outputs)@) == views(old(outputs)@) + r.out
                &&& result == (match r.error {
                    Some(e) => Err::<(), DemuxError>(e),
                    None => Ok(()),
                })
            }),
    {
        let ghost whole: Run = run(self@.parser, self@.buffered).after(views(outputs@));
        let ghost input: Seq<u8> = self@.buffered;
        let mut buf: Vec<u8> = Vec::new();
        std::mem::swap(&mut buf, &mut self.buf);
        let len: usize = buf.len();
        let mut at: usize = 0;
        assert(input.skip(0) =~= input);
        loop
            invariant
                input == old(self)@.buffered,
                whole == run(old(self)@.parser, input).after(views(old(outputs)@)),
                buf@ == input,
                at <= len == input.len(),
                self@ == (DemuxView {
                    buffered: Seq::<u8>::empty(),
                    parser: self@.parser,
                    ..old(self)@
                }),
                run(self@.parser, input.skip(at as int)).after(views(outputs@)) == whole,
            ensures
                input.skip(at as int).len() < self@.parser.need(),
            decreases len - at, rank(self@.parser),
        {
            let need: u64 = self.need();
            if ((len - at) as u64) < need {
                break ;
            }
            let end: usize = at + need as usize;
            let ghost left: Seq<u8> = input.skip(at as int);
            proof {
                lemma_run_step(self@.parser, left, views(outputs@));
                assert(buf@.subrange(at as int, end as int) =~= left.take(need as int));
            }
            match self.step(&buf[at..end], outputs) {
                Ok(()) => {
                    assert(left.skip(need as int) =~= input.skip(end as int));
                    at = end;
                },
                Err((error, used)) => {
                    self.advance_position(used as u64);
                    self.buf = buf.split_off(at + used);
                    assert(left.skip(used as int) =~= input.skip(at + used));
                    return Err(error);
                },
            }
        }
        proof {
            lemma_run_waits(self@.parser, input.skip(at as int));
            assert(views(outputs@) + Seq::<OutputView>::empty() =~= views(outputs@));
        }
        self.buf = buf.split_off(at);
        Ok(())
    }

    /// Parses a buffer that upstream has pushed. What is returned is to be
    /// pushed downstream; then `announce_duration` is due. On an error nothing
    /// is pushed.
    pub fn sink_chain(&mut self, data: &[u8]) -> (result: Result<Vec<Output>, DemuxError>)
        ensures
            ({
                let r = chained(old(self)@, data@);
                &&& final(self)@ == settled(old(self)@, r)
                &&& match result {
                    Ok(outputs) => r.error is None && views(outputs@) == r.out,
                    Err(e) => r.error == Some(e),
                }
            }),
    {
        let mut outputs: Vec<Output> = Vec::new();
        self.buf.extend_from_slice(data);
        assert(self@.buffered =~= old(self)@.buffered + data@);
        assert(views(outputs@) =~= Seq::<OutputView>::empty());
        match self.parse(&mut outputs) {
            Ok(()) => {
                assert(views(outputs@) =~= chained(old(self)@, data@).out);
                Ok(outputs)
            },
            Err(e) => Err(e),
        }
    }

    /// Tells whether the duration is to be announced: once, when the index is
    /// known.
    pub fn announce_duration(&mut self) -> (announce: bool)
        ensures
            announce == announces(old(self)@),
            final(self)@ == after_announcement(old(self)@),
    {
        if self.dpds_total.is_some() && !self.announced_duration {
            self.announced_duration = true;
            true
        } else {
            false
        }
    }

    /// The play time of the whole stream, in nanoseconds.
    pub fn compute_duration(&self) -> (time: Option<u64>)
        ensures
            time == duration(self@.parser),
    {
        match (self.fmt, self.dpds_total) {
            (Some(fmt), Some(total)) => fmt.time_of(total),
            _ => None,
        }
    }

    /// Answers a query on the source pad.
    pub fn src_query(&self, query: Query) -> (result: Answer)
        ensures
            result == answer(self@, query),
    {
        match query {
            Query::Duration { in_time } => match self.compute_duration() {
                Some(d) => if in_time {
                    Answer::Duration(d)
                } else {
                    Answer::Refuse
                },
                None => Answer::Refuse,
            },
            Query::Seeking { in_time } => match self.compute_duration() {
                Some(d) => if in_time && self.in_bytes && self.is_seekable() {
                    Answer::Seekable { end: d }
                } else {
                    Answer::Default
                },
                None => Answer::Default,
            },
            Query::Other => Answer::Default,
        }
    }

    /// Tells whether times can be mapped to packets.
    fn is_seekable(&self) -> (served: bool)
        ensures
            served == seekable(self@.parser),
    {
        match (self.data, self.dpds_total) {
            (Some(d), Some(_)) => d.fmt.time_of(0).is_some() && d.size > 0 && d.offset <= u64::MAX
                - d.size as u64,
            _ => false,
        }
    }

    /// Maps a time to the packet that plays then and the byte of the stream at
    /// which it starts.
    fn resume_for(&self, time: u64) -> (resume: Option<Resume>)
        ensures
            resume == target(self@.parser, time),
    {
        if !self.is_seekable() {
            return None;
        }
        match self.data {
            Some(chunk) => {
                let k: u64 = packet_at(&chunk.fmt, &self.index, chunk.size, time);
                let step: u64 = if chunk.fmt.block_align == 0 {
                    1
                } else {
                    chunk.fmt.block_align as u64
                };
                let ahead: u64 = k * step;
                Some(
                    Resume {
                        fmt: chunk.fmt,
                        offset: chunk.offset + ahead,
                        remaining: chunk.size - ahead as u32,
                        pad: chunk.pad,
                        packet: k,
                        time,
                    },
                )
            },
            None => None,
        }
    }

    /// The seek that an event asks for, if it can be served.
    fn seek_for(&self, event: SrcEvent) -> (seek: Option<Seek>)
        ensures
            seek == seek_of(self@, event),
    {
        match event {
            SrcEvent::Seek { in_time, flush, rate, start, stop } => {
                if !in_time || !flush || !self.in_bytes || rate == 0 || rate
                    > 0x7ff0_0000_0000_0000 {
                    return None;
                }
                let end: Option<u64> = match stop {
                    SeekStop::Keep => self.stop,
                    SeekStop::At(e) => Some(e),
                    SeekStop::Unset => None,
                    SeekStop::Other => return None,
                };
                let time: u64 = match start {
                    Some(t) => t,
                    None => return None,
                };
                match end {
                    Some(e) => if e < time {
                        return None;
                    },
                    None => {},
                }
                match self.resume_for(time) {
                    Some(resume) => Some(Seek { resume, stop: end, rate }),
                    None => None,
                }
            },
            SrcEvent::Other => None,
        }
    }

    /// Handles an event on the source pad. A seek in time that can be served
    /// becomes a seek of upstream to the first byte of the packet that plays
    /// then, and the demuxer gets ready to go on there once upstream has
    /// flushed. All else is left to the pad.
    pub fn src_event(&mut self, event: SrcEvent) -> (action: SrcAction)
        ensures
            match seek_of(old(self)@, event) {
                Some(s) => {
                    &&& action == SrcAction::SeekUpstream(s.resume.offset)
                    &&& final(self)@ == (DemuxView { pending: Some(s), ..old(self)@ })
                },
                None => action == SrcAction::Default && final(self)@ == old(self)@,
            },
    {
        match self.seek_for(event) {
            Some(seek) => {
                self.pending = Some(seek);
                SrcAction::SeekUpstream(seek.resume.offset)
            },
            None => SrcAction::Default,
        }
    }

    /// The format tag of the stream, where it is not that of WMAv2.
    pub fn unexpected_tag(&self) -> (tag: Option<u16>)
        ensures
            tag == (match self@.parser.fmt {
                Some(f) => if f.format_tag != WAVE_FORMAT_WMAUDIO2 {
                    Some(f.format_tag)
                } else {
                    None
                },
                None => None,
            }),
    {
        match self.fmt {
            Some(f) => if f.format_tag != WAVE_FORMAT_WMAUDIO2 {
                Some(f.format_tag)
            } else {
                None
            },
            None => None,
        }
    }

    /// The format of the stream, once it is known.
    pub fn stream_format(&self) -> (fmt: Option<Fmt>)
        ensures
            fmt == self@.parser.fmt,
    {
        self.fmt
    }

    /// Forgets a seek that upstream has refused.
    pub fn seek_refused(&mut self)
        ensures
            final(self)@ == (DemuxView { pending: None, ..old(self)@ }),
    {
        self.pending = None;
    }

    /// Hands out the bytes of an unfinished packet that are still held.
    fn drain_eos(&mut self, outputs: &mut Vec<Output>)
        ensures
            final(self)@ == drained(old(self)@),
            views(final(outputs)@) == views(old(outputs)@) + last_words(old(self)@),
    {
        proof {
            assert(views(old(outputs)@) + Seq::<OutputView>::empty() =~= views(old(outputs)@));
        }
        match self.stage {
            Stage::Data { remaining, .. } => {
                let len: usize = self.buf.len();
                let avail: usize = if len as u64 <= remaining as u64 {
                    len
                } else {
                    remaining as usize
                };
                if avail > 0 {
                    let bytes: Vec<u8> = copy_range(self.buf.as_slice(), 0, avail);
                    assert(bytes@ =~= held(old(self)@));
                    self.buf = self.buf.split_off(avail);
                    self.emit_packet(bytes, outputs);
                    self.stage = Stage::Data { remaining: remaining - avail as u32, pad: false };
                    assert(views(outputs@) =~= views(old(outputs)@) + last_words(old(self)@));
                    assert(self@.buffered =~= old(self)@.buffered.skip(avail as int));
                }
            },
            _ => {},
        }
    }

    /// Handles an event on the sink pad. The framing of the byte stream is
    /// dropped, since the demuxer makes its own; what is kept of it is whether
    /// upstream counts bytes. All else goes downstream.
    pub fn sink_event(&mut self, event: SinkEvent) -> (plan: EventPlan)
        ensures
            match event {
                SinkEvent::Caps | SinkEvent::Segment { .. } | SinkEvent::StreamStart => {
                    &&& final(self)@ == (match event {
                        SinkEvent::Segment { in_bytes } => DemuxView { in_bytes, ..old(self)@ },
                        _ => old(self)@,
                    })
                    &&& !plan.forward
                    &&& plan.before@.len() == 0
                    &&& plan.after@.len() == 0
                },
                SinkEvent::Eos => {
                    &&& final(self)@ == drained(old(self)@)
                    &&& plan.forward
                    &&& views(plan.before@) == last_words(old(self)@)
                    &&& plan.after@.len() == 0
                },
                SinkEvent::FlushStop => {
                    &&& final(self)@ == flushed(old(self)@)
                    &&& plan.forward
                    &&& plan.before@.len() == 0
                    &&& views(plan.after@) == (match old(self)@.pending {
                        Some(s) => seq![OutputView::Event(segment_of(s))],
                        None => seq![],
                    })
                },
                SinkEvent::Other => {
                    &&& final(self)@ == old(self)@
                    &&& plan.forward
                    &&& plan.before@.len() == 0
                    &&& plan.after@.len() == 0
                },
            },
    {
        let mut before: Vec<Output> = Vec::new();
        let mut after: Vec<Output> = Vec::new();
        assert(views(before@) =~= Seq::<OutputView>::empty());
        assert(views(after@) =~= Seq::<OutputView>::empty());
        let forward: bool = match event {
            SinkEvent::Caps | SinkEvent::StreamStart => false,
            SinkEvent::Segment { in_bytes } => {
                self.in_bytes = in_bytes;
                false
            },
            SinkEvent::Eos => {
                self.drain_eos(&mut before);
                assert(views(before@) =~= last_words(old(self)@));
                true
            },
            SinkEvent::FlushStop => {
                match self.pending {
                    Some(s) => {
                        self.buf = Vec::new();
                        self.skip = false;
                        self.stage = Stage::Data {
                            remaining: s.resume.remaining,
                            pad: s.resume.pad,
                        };
                        self.fmt = Some(s.resume.fmt);
                        self.started = true;
                        self.next_packet = s.resume.packet;
                        self.position = s.resume.offset;
                        self.pending = None;
                        self.stop = s.stop;
                        let segment: Event = Event::Segment {
                            start: s.resume.time,
                            stop: s.stop,
                            rate: s.rate,
                        };
                        push_output(&mut after, Output::Event(segment));
                        assert(views(after@) =~= seq![OutputView::Event(segment_of(s))]);
                    },
                    None => {
                        *self = XwmaDemux { in_bytes: self.in_bytes, ..XwmaDemux::default() };
                    },
                }
                true
            },
            SinkEvent::Other => true,
        };
        EventPlan { before, forward, after }
    }

    /// Follows a state change of the element: a stream starts anew when it
    /// enters the running states.
    pub fn change_state(&mut self, transition: StateChange)
        ensures
            final(self)@ == (if transition == StateChange::ReadyToPaused {
                initial()
            } else {
                old(self)@
            }),
    {
        if transition == StateChange::ReadyToPaused {
            *self = XwmaDemux::default();
        }
    }
}

} // verus!

//! The xWMA container as an automaton. In each state the parser needs a
//! certain number of bytes to go on; once it has them it consumes them, moves
//! to the next state and may hand something downstream. A run does this for
//! as long as the input lasts.

use crate::bytes::{field, le32, DATA, DPDS, FMT};
use crate::error::DemuxError;
use crate::format::{fmt_of, Fmt};
use crate::output::{whole_segment, Event, OutputView};
use crate::timeline::packet_time;
use crate::typefind::is_xwma;
use vstd::prelude::*;

verus! {

/// What a chunk other than `data` is for.
#[derive(Clone, Copy, Debug, PartialEq, Eq, Structural)]
pub enum ChunkKind {
    /// `fmt `: the WAVEFORMATEX.
    Fmt,
    /// `dpds`: the index.
    Dpds,
    /// Anything else: skipped.
    Other,
}

/// Where the parser is in the container.
#[derive(Clone, Copy, Debug, PartialEq, Eq)]
pub enum Stage {
    /// Before the 12 bytes `RIFF`, a size and `XWMA`.
    RiffHeader,
    /// Before an 8-byte chunk header: an id and a size.
    ChunkHeader,
    /// Before the body of a chunk of `size` bytes, and a pad byte if `pad`.
    ChunkBody { kind: ChunkKind, size: u32, pad: bool },
    /// In a `data` chunk of which `remaining` bytes are to come, and then a
    /// pad byte if `pad`.
    Data { remaining: u32, pad: bool },
}

/// Where the packets of a stream are: the body of its first `data` chunk that
/// is not empty.
#[derive(Clone, Copy, Debug, PartialEq, Eq)]
pub struct DataChunk {
    /// Byte offset of the first packet in the stream.
    pub offset: u64,
    /// Bytes of all packets.
    pub size: u32,
    /// A pad byte follows.
    pub pad: bool,
    /// The format of the packets.
    pub fmt: Fmt,
}

/// What the parser knows of a stream.
#[verifier::ext_equal]
pub struct ParserView {
    /// A pad byte is to be skipped before anything else.
    pub skip: bool,
    pub stage: Stage,
    /// The format, from the last `fmt ` chunk.
    pub fmt: Option<Fmt>,
    /// All decoded bytes, from the last four bytes of the last `dpds` chunk.
    pub dpds_total: Option<u32>,
    /// Decoded bytes at the end of each packet, from the last `dpds` chunk.
    pub index: Seq<u32>,
    /// Stream start, caps and segment have been handed out.
    pub started: bool,
    /// The number of the next packet.
    pub next_packet: u64,
    /// Bytes of the stream that have been consumed.
    pub position: u64,
    /// The first `data` chunk that is not empty, once it has been reached.
    pub data: Option<DataChunk>,
}

/// `a + n`, or the largest `u64` where that is smaller.
pub open spec fn saturating(a: u64, n: int) -> u64 {
    if a + n <= u64::MAX {
        (a + n) as u64
    } else {
        u64::MAX
    }
}

/// The parser of a stream of which nothing has been seen.
pub open spec fn fresh() -> ParserView {
    ParserView {
        skip: false,
        stage: Stage::RiffHeader,
        fmt: None,
        dpds_total: None,
        index: seq![],
        started: false,
        next_packet: 0,
        position: 0,
        data: None,
    }
}

/// RIFF pads chunks of odd size.
pub open spec fn odd(size: int) -> bool {
    size % 2 == 1
}

/// The kind of a chunk, by its id.
pub open spec fn kind_of(id: Seq<u8>) -> ChunkKind {
    if id == FMT@ {
        ChunkKind::Fmt
    } else if id == DPDS@ {
        ChunkKind::Dpds
    } else {
        ChunkKind::Other
    }
}

/// The first `n` entries of a `dpds` chunk.
pub open spec fn entries(body: Seq<u8>, n: int) -> Seq<u32> {
    Seq::new(n as nat, |i: int| le32(body, 4 * i) as u32)
}

/// What comes before the first packet of a stream of format `f`.
pub open spec fn start_events(f: Fmt) -> Seq<OutputView> {
    seq![
        OutputView::Event(Event::StreamStart),
        OutputView::Event(Event::WmaCaps(f.caps())),
        OutputView::Event(whole_segment()),
    ]
}

impl ParserView {
    /// The same parser, `n` bytes on.
    pub open spec fn moved(self, n: int) -> ParserView {
        ParserView { position: saturating(self.position, n), ..self }
    }

    /// The same parser, in another stage.
    pub open spec fn at(self, stage: Stage) -> ParserView {
        ParserView { stage, ..self }
    }

    /// Bytes of one packet.
    pub open spec fn packet_size(self) -> int {
        match self.fmt {
            Some(f) => f.packet_size(),
            None => 1,
        }
    }

    /// How many bytes the parser needs to go on.
    pub open spec fn need(self) -> int {
        if self.skip {
            1
        } else {
            match self.stage {
                Stage::RiffHeader => 12,
                Stage::ChunkHeader => 8,
                Stage::ChunkBody { size, pad, .. } => size + (if pad {
                    1int
                } else {
                    0
                }),
                Stage::Data { remaining, .. } => if self.packet_size() <= remaining {
                    self.packet_size()
                } else {
                    remaining as int
                },
            }
        }
    }

    /// The first `data` chunk that is not empty, if the header that has just
    /// been consumed is its header or it was known before. An offset at which the position
    /// saturates is unknown.
    pub open spec fn located(self, size: u32, f: Fmt) -> Option<DataChunk> {
        match self.data {
            Some(d) => Some(d),
            None => if size > 0 && self.position < u64::MAX {
                Some(DataChunk { offset: self.position, size, pad: odd(size as int), fmt: f })
            } else {
                None
            },
        }
    }
}

/// One step of the parser.
pub enum Step {
    /// The bytes are consumed; this is the next state and what is handed out.
    Go { next: ParserView, out: Seq<OutputView> },
    /// The stream is refused; `used` of the bytes are consumed.
    Fail { error: DemuxError, used: int },
}

/// The step after a chunk header.
pub open spec fn open_chunk(p: ParserView, b: Seq<u8>) -> Step {
    let size = le32(b, 4) as u32;
    let pad = odd(size as int);
    if field(b, 0, 4) == DATA@ {
        match p.fmt {
            Some(f) => Step::Go {
                next: ParserView {
                    stage: Stage::Data { remaining: size, pad },
                    started: true,
                    data: p.moved(8).located(size, f),
                    ..p.moved(8)
                },
                out: if p.started {
                    seq![]
                } else {
                    start_events(f)
                },
            },
            None => Step::Fail { error: DemuxError::DataBeforeFmt, used: 8 },
        }
    } else {
        Step::Go {
            next: p.moved(8).at(Stage::ChunkBody { kind: kind_of(field(b, 0, 4)), size, pad }),
            out: seq![],
        }
    }
}

/// The step after the body of a chunk other than `data`.
pub open spec fn close_chunk(p: ParserView, b: Seq<u8>, kind: ChunkKind, size: u32) -> Step {
    let next = p.moved(b.len() as int).at(Stage::ChunkHeader);
    match kind {
        ChunkKind::Fmt => if size < 16 {
            Step::Fail { error: DemuxError::FmtTooSmall, used: 0 }
        } else {
            Step::Go { next: ParserView { fmt: Some(fmt_of(b)), ..next }, out: seq![] }
        },
        ChunkKind::Dpds => if size < 4 {
            Step::Go { next, out: seq![] }
        } else {
            Step::Go {
                next: ParserView {
                    dpds_total: Some(le32(b, size - 4) as u32),
                    index: entries(b, size as int / 4),
                    ..next
                },
                out: seq![],
            }
        },
        ChunkKind::Other => Step::Go { next, out: seq![] },
    }
}

/// The step after a packet; at the end of the chunk, or in an empty one, the
/// next chunk is due.
pub open spec fn after_packet(p: ParserView, b: Seq<u8>, remaining: u32, pad: bool) -> ParserView {
    let q = if b.len() == 0 {
        p
    } else {
        ParserView { next_packet: saturating(p.next_packet, 1), ..p.moved(b.len() as int) }
    };
    if b.len() == remaining {
        ParserView { skip: pad, stage: Stage::ChunkHeader, ..q }
    } else {
        q.at(Stage::Data { remaining: (remaining - b.len()) as u32, pad })
    }
}

/// The packet made of the bytes `b`.
pub open spec fn packet(p: ParserView, b: Seq<u8>) -> OutputView {
    OutputView::Buffer { data: b, pts: packet_time(p.fmt, p.index, p.next_packet as int) }
}

/// The step that the parser makes with the bytes that it needs.
pub open spec fn advance(p: ParserView, b: Seq<u8>) -> Step
    recommends
        b.len() == p.need(),
{
    if p.skip {
        Step::Go { next: ParserView { skip: false, ..p.moved(1) }, out: seq![] }
    } else {
        match p.stage {
            Stage::RiffHeader => if is_xwma(b) {
                Step::Go { next: p.moved(12).at(Stage::ChunkHeader), out: seq![] }
            } else {
                Step::Fail { error: DemuxError::NotXwma, used: 0 }
            },
            Stage::ChunkHeader => open_chunk(p, b),
            Stage::ChunkBody { kind, size, .. } => close_chunk(p, b, kind, size),
            Stage::Data { remaining, pad } => Step::Go {
                next: after_packet(p, b, remaining, pad),
                out: if b.len() == 0 {
                    seq![]
                } else {
                    seq![packet(p, b)]
                },
            },
        }
    }
}

/// The outcome of a run: the state of the parser, the input that it has not
/// consumed, what it has handed out, and the error that stopped it, if any.
#[verifier::ext_equal]
pub struct Run {
    pub parser: ParserView,
    pub rest: Seq<u8>,
    pub out: Seq<OutputView>,
    pub error: Option<DemuxError>,
}

impl Run {
    /// The same run, with `out` handed out before it.
    pub open spec fn after(self, out: Seq<OutputView>) -> Run {
        Run { out: out + self.out, ..self }
    }
}

/// Only a chunk body and a `data` chunk may need no bytes; a chunk header
/// follows them.
pub open spec fn rank(p: ParserView) -> int {
    if p.stage is ChunkHeader {
        0
    } else {
        1
    }
}

/// Runs the parser for as long as it has the bytes that it needs.
pub open spec fn run(p: ParserView, input: Seq<u8>) -> Run
    decreases input.len(), rank(p),
{
    if input.len() < p.need() {
        Run { parser: p, rest: input, out: seq![], error: None }
    } else {
        match advance(p, input.take(p.need())) {
            Step::Go { next, out } => run(next, input.skip(p.need())).after(out),
            Step::Fail { error, used } => Run {
                parser: p.moved(used),
                rest: input.skip(used),
                out: seq![],
                error: Some(error),
            },
        }
    }
}

/// A run that can make a step goes on from there, or stops at its error.
pub(crate) proof fn lemma_run_step(p: ParserView, input: Seq<u8>, had: Seq<OutputView>)
    requires
        input.len() >= p.need(),
    ensures
        match advance(p, input.take(p.need())) {
            Step::Go { next, out } => {
                &&& run(p, input).after(had) == run(next, input.skip(p.need())).after(had + out)
                &&& p.need() > 0 || rank(next) < rank(p)
            },
            Step::Fail { error, used } => {
                &&& run(p, input).after(had) == (Run {
                    parser: p.moved(used),
                    rest: input.skip(used),
                    out: had,
                    error: Some(error),
                })
                &&& 0 <= used <= p.need()
            },
        },
{
    match advance(p, input.take(p.need())) {
        Step::Go { next, out } => {
            let r = run(next, input.skip(p.need()));
            assert(had + (out + r.out) =~= (had + out) + r.out);
        },
        Step::Fail { .. } => {
            assert(had + Seq::<OutputView>::empty() =~= had);
        },
    }
}

/// A run that lacks the bytes for a step ends.
pub(crate) proof fn lemma_run_waits(p: ParserView, input: Seq<u8>)
    requires
        input.len() < p.need(),
    ensures
        run(p, input) == (Run { parser: p, rest: input, out: seq![], error: None }),
{
}

} // verus!

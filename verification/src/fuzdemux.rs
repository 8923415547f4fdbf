//! The demuxer for Bethesda FUZ files, which wrap an xWMA file:
//!
//! ```text
//! [0..4]  "FUZE"
//! [4]     version; any is accepted
//! [5..9]  little-endian u32: size of the lip animation, 0 if there is none
//! [9..]   the lip animation, then a complete xWMA file
//! ```
//!
//! The demuxer strips everything before the xWMA file. Events from downstream,
//! seeks among them, are none of its business: they are left to the pad.
//!
//! The pads, and the pushing of what the demuxer returns, are the caller's.

use crate::bytes::{is_word, le32, read_le32, FUZE};
use crate::error::DemuxError;
use crate::events::{EventPlan, SinkEvent, StateChange};
use crate::output::{
    make_whole_segment, push_output, views, whole_segment, Event, Output, OutputView, Packet,
};
use crate::typefind::is_fuz;
use vstd::prelude::*;

verus! {

/// Where the demuxer is in the file.
#[derive(Clone, Copy, Debug, PartialEq, Eq)]
pub enum FuzStage {
    /// Before the 9-byte header.
    Header,
    /// In the lip animation, of which this many bytes are to come.
    Fnam(u32),
    /// In the xWMA file.
    Audio,
}

/// The header of a FUZ file.
#[derive(Clone, Copy, Debug, PartialEq, Eq)]
pub struct FuzHeader {
    pub version: u8,
    /// Bytes of the lip animation.
    pub lip_size: u32,
}

/// The version that FUZ files have. Another one is accepted all the same.
pub const FUZ_VERSION: u8 = 1;

/// The header in the first nine bytes of `s`.
pub open spec fn header_of(s: Seq<u8>) -> FuzHeader {
    FuzHeader { version: s[4], lip_size: le32(s, 5) as u32 }
}

/// A demuxer as a value.
#[verifier::ext_equal]
pub struct FuzView {
    /// Input that has not been consumed.
    pub buffered: Seq<u8>,
    pub stage: FuzStage,
    /// Stream start, caps and segment have been handed out.
    pub started: bool,
    /// The header, once it has been read.
    pub header: Option<FuzHeader>,
}

/// The outcome of a buffer: the demuxer after it, what it hands out, and the
/// error that stopped it, if any.
#[verifier::ext_equal]
pub struct FuzRun {
    pub next: FuzView,
    pub out: Seq<OutputView>,
    pub error: Option<DemuxError>,
}

/// A demuxer that has seen nothing.
pub open spec fn fuz_initial() -> FuzView {
    FuzView {
        buffered: seq![],
        stage: FuzStage::Header,
        started: false,
        header: None,
    }
}

/// What comes before the xWMA file.
pub open spec fn fuz_start_events() -> Seq<OutputView> {
    seq![
        OutputView::Event(Event::StreamStart),
        OutputView::Event(Event::XwmaCaps),
        OutputView::Event(whole_segment()),
    ]
}

/// The bytes of the xWMA file in `s`, as one buffer if there are any.
pub open spec fn passed(s: Seq<u8>) -> Seq<OutputView> {
    if s.len() == 0 {
        seq![]
    } else {
        seq![OutputView::Buffer { data: s, pts: None }]
    }
}

/// What becomes of `s` where it starts with `lip` bytes of lip animation.
pub open spec fn stripped(v: FuzView, lip: int, s: Seq<u8>) -> FuzRun {
    if s.len() < lip {
        FuzRun {
            next: FuzView {
                buffered: seq![],
                stage: FuzStage::Fnam((lip - s.len()) as u32),
                ..v
            },
            out: seq![],
            error: None,
        }
    } else {
        FuzRun {
            next: FuzView { buffered: seq![], stage: FuzStage::Audio, started: true, ..v },
            out: (if v.started {
                seq![]
            } else {
                fuz_start_events()
            }) + passed(s.skip(lip)),
            error: None,
        }
    }
}

/// What becomes of the buffered input and then `data`.
pub open spec fn fuz_chained(v: FuzView, data: Seq<u8>) -> FuzRun {
    let s = v.buffered + data;
    match v.stage {
        FuzStage::Header => if s.len() < 9 {
            FuzRun { next: FuzView { buffered: s, ..v }, out: seq![], error: None }
        } else if is_fuz(s) {
            stripped(FuzView { header: Some(header_of(s)), ..v }, le32(s, 5), s.skip(9))
        } else {
            FuzRun {
                next: FuzView { buffered: s, ..v },
                out: seq![],
                error: Some(DemuxError::NotFuz),
            }
        },
        FuzStage::Fnam(remaining) => stripped(v, remaining as int, s),
        FuzStage::Audio => FuzRun {
            next: FuzView { buffered: seq![], ..v },
            out: passed(s),
            error: None,
        },
    }
}

/// The FUZ demuxer.
pub struct FuzDemux {
    buf: Vec<u8>,
    stage: FuzStage,
    started: bool,
    header: Option<FuzHeader>,
}

impl View for FuzDemux {
    type V = FuzView;

    closed spec fn view(&self) -> FuzView {
        FuzView {
            buffered: self.buf@,
            stage: self.stage,
            started: self.started,
            header: self.header,
        }
    }
}

impl Default for FuzDemux {
    fn default() -> (demux: Self)
        ensures
            demux@ == fuz_initial(),
    {
        FuzDemux {
            buf: Vec::new(),
            stage: FuzStage::Header,
            started: false,
            header: None,
        }
    }
}

impl FuzDemux {
    /// Makes as much progress as the buffered bytes allow.
    fn parse(&mut self, outputs: &mut Vec<Output>) -> (result: Result<(), DemuxError>)
        ensures
            ({
                let r = fuz_chained(old(self)@, seq![]);
                &&& final(self)@ == r.next
                &&& views(final(outputs)@) == views(old(outputs)@) + r.out
                &&& result == (match r.error {
                    Some(e) => Err::<(), DemuxError>(e),
                    None => Ok(()),
                })
            }),
    {
        let ghost whole: Seq<u8> = self@.buffered;
        let ghost first: Seq<OutputView> = views(outputs@);
        proof {
            assert(whole + Seq::<u8>::empty() =~= whole);
            assert(first + Seq::<OutputView>::empty() =~= first);
        }
        match self.stage {
            FuzStage::Header => {
                if self.buf.len() < 9 {
                    return Ok(());
                }
                if !is_word(self.buf.as_slice(), 0, FUZE) {
                    return Err(DemuxError::NotFuz);
                }
                let lip_size: u32 = read_le32(self.buf.as_slice(), 5);
                self.header = Some(FuzHeader { version: self.buf[4], lip_size });
                self.buf = self.buf.split_off(9);
                self.stage = FuzStage::Fnam(lip_size);
                assert(self@.buffered =~= whole.skip(9));
            },
            _ => {},
        }
        let ghost left: Seq<u8> = self@.buffered;
        match self.stage {
            FuzStage::Fnam(remaining) => {
                let len: usize = self.buf.len();
                if (len as u64) < remaining as u64 {
                    self.buf = Vec::new();
                    self.stage = FuzStage::Fnam(remaining - len as u32);
                    return Ok(());
                }
                self.buf = self.buf.split_off(remaining as usize);
                assert(self@.buffered =~= left.skip(remaining as int));
                if !self.started {
                    push_output(outputs, Output::Event(Event::StreamStart));
                    push_output(outputs, Output::Event(Event::XwmaCaps));
                    push_output(outputs, Output::Event(make_whole_segment()));
                    self.started = true;
                    assert(views(outputs@) =~= first + fuz_start_events());
                }
                self.stage = FuzStage::Audio;
            },
            _ => {},
        }
        let ghost had: Seq<OutputView> = views(outputs@);
        let ghost start: Seq<OutputView> = had.skip(first.len() as int);
        assert(had =~= first + start);
        let mut data: Vec<u8> = Vec::new();
        std::mem::swap(&mut data, &mut self.buf);
        if data.len() > 0 {
            push_output(outputs, Output::Buffer(Packet { data, pts: None }));
        }
        assert(views(outputs@) =~= first + (start + passed(data@)));
        Ok(())
    }

    /// Parses a buffer that upstream has pushed. What is returned is to be
    /// pushed downstream. On an error nothing is pushed.
    pub fn sink_chain(&mut self, data: &[u8]) -> (result: Result<Vec<Output>, DemuxError>)
        ensures
            ({
                let r = fuz_chained(old(self)@, data@);
                &&& final(self)@ == r.next
                &&& match result {
                    Ok(outputs) => r.error is None && views(outputs@) == r.out,
                    Err(e) => r.error == Some(e),
                }
            }),
    {
        let mut outputs: Vec<Output> = Vec::new();
        self.buf.extend_from_slice(data);
        assert(self@.buffered =~= old(self)@.buffered + data@);
        assert(self@.buffered + Seq::<u8>::empty() =~= self@.buffered);
        assert(views(outputs@) =~= Seq::<OutputView>::empty());
        match self.parse(&mut outputs) {
            Ok(()) => {
                assert(views(outputs@) =~= fuz_chained(old(self)@, data@).out);
                Ok(outputs)
            },
            Err(e) => Err(e),
        }
    }

    /// Handles an event on the sink pad. The framing of the byte stream is
    /// dropped, since the demuxer makes its own; all else goes downstream.
    pub fn sink_event(&self, event: SinkEvent) -> (plan: EventPlan)
        ensures
            plan.forward == !(event is Caps || event is Segment || event is StreamStart),
            plan.before@.len() == 0,
            plan.after@.len() == 0,
    {
        let forward: bool = match event {
            SinkEvent::Caps | SinkEvent::Segment { .. } | SinkEvent::StreamStart => false,
            _ => true,
        };
        EventPlan { before: Vec::new(), forward, after: Vec::new() }
    }

    /// The header of the file, once it has been read.
    pub fn file_header(&self) -> (header: Option<FuzHeader>)
        ensures
            header == self@.header,
    {
        self.header
    }

    /// The version of the file, where it is not the one that FUZ files have.
    pub fn unexpected_version(&self) -> (version: Option<u8>)
        ensures
            version == (match self@.header {
                Some(h) => if h.version != FUZ_VERSION {
                    Some(h.version)
                } else {
                    None
                },
                None => None,
            }),
    {
        match self.header {
            Some(h) => if h.version != FUZ_VERSION {
                Some(h.version)
            } else {
                None
            },
            None => None,
        }
    }

    /// Follows a state change of the element: a stream starts anew when it
    /// enters the running states.
    pub fn change_state(&mut self, transition: StateChange)
        ensures
            final(self)@ == (if transition == StateChange::ReadyToPaused {
                fuz_initial()
            } else {
                old(self)@
            }),
    {
        if transition == StateChange::ReadyToPaused {
            *self = FuzDemux::default();
        }
    }
}

} // verus!

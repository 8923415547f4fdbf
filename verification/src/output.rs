//! What the demuxers hand to the pipeline, as plain values.

use vstd::prelude::*;

verus! {

/// The extradata of the WMAv2 decoder. xWMA files omit it; it is the same
/// for all of them.
pub const WMAV2_CODEC_DATA: [u8; 6] = [0x00, 0x00, 0x00, 0x00, 0x1f, 0x00];

/// Media type of the elementary stream that an xWMA file holds.
pub const WMA_CAPS: &'static str = "audio/x-wma";

/// The fields of the `audio/x-wma` caps.
#[derive(Clone, Copy, Debug, PartialEq, Eq)]
pub struct WmaCaps {
    pub wmaversion: i32,
    pub rate: i32,
    pub channels: i32,
    pub block_align: i32,
    pub bitrate: i32,
    pub depth: i32,
    pub codec_data: [u8; 6],
}

/// A serialised event for the source pad.
#[derive(Clone, Copy, Debug, PartialEq, Eq)]
pub enum Event {
    /// Start of the stream.
    StreamStart,
    /// Caps `audio/x-xwma`.
    XwmaCaps,
    /// Caps `audio/x-wma`.
    WmaCaps(WmaCaps),
    /// A segment in time, in nanoseconds, that plays from `start` to `stop`,
    /// or to the end. `rate` is the bits of the rate, a 64-bit float.
    Segment { start: u64, stop: Option<u64>, rate: u64 },
}

/// The bits of the rate 1.0, the normal speed.
pub const NORMAL_RATE: u64 = 0x3ff0_0000_0000_0000;

/// The segment of a stream that plays from its start to its end.
pub open spec fn whole_segment() -> Event {
    Event::Segment { start: 0, stop: None, rate: NORMAL_RATE }
}

/// Makes the segment of a stream that plays from its start to its end.
pub(crate) fn make_whole_segment() -> (segment: Event)
    ensures
        segment == whole_segment(),
{
    Event::Segment { start: 0, stop: None, rate: NORMAL_RATE }
}

/// A buffer for the source pad; `pts` is in nanoseconds.
#[derive(Debug, PartialEq, Eq)]
pub struct Packet {
    pub data: Vec<u8>,
    pub pts: Option<u64>,
}

/// What a demuxer wants pushed downstream, in order.
#[derive(Debug, PartialEq, Eq)]
pub enum Output {
    Event(Event),
    Buffer(Packet),
}

/// An `Output` with the bytes of a buffer as a sequence.
#[verifier::ext_equal]
pub enum OutputView {
    Event(Event),
    Buffer { data: Seq<u8>, pts: Option<u64> },
}

impl View for Output {
    type V = OutputView;

    open spec fn view(&self) -> OutputView {
        match self {
            Output::Event(e) => OutputView::Event(*e),
            Output::Buffer(p) => OutputView::Buffer { data: p.data@, pts: p.pts },
        }
    }
}

/// The outputs of a vector, in order.
pub open spec fn views(s: Seq<Output>) -> Seq<OutputView> {
    s.map_values(|o: Output| o@)
}

/// Outputs are seen as they are: each in its place, an event as itself, and a
/// buffer as its bytes and its time stamp.
pub proof fn law_outputs_are_seen_as_they_are(s: Seq<Output>, i: int)
    requires
        0 <= i < s.len(),
    ensures
        views(s).len() == s.len(),
        match s[i] {
            Output::Event(e) => views(s)[i] == OutputView::Event(e),
            Output::Buffer(p) => views(s)[i] matches OutputView::Buffer { data, pts } && data
                == p.data@ && pts == p.pts,
        },
{
}

/// The bytes of all buffers in `s`, in order.
pub open spec fn payload(s: Seq<OutputView>) -> Seq<u8>
    decreases s.len(),
{
    if s.len() == 0 {
        seq![]
    } else {
        match s[0] {
            OutputView::Event(_) => payload(s.drop_first()),
            OutputView::Buffer { data, .. } => data + payload(s.drop_first()),
        }
    }
}

/// `s` holds buffers only.
pub open spec fn all_buffers(s: Seq<OutputView>) -> bool {
    forall|i: int| 0 <= i < s.len() ==> #[trigger] s[i] is Buffer
}

/// The buffers in `s`, as their bytes.
pub open spec fn buffers(s: Seq<OutputView>) -> Seq<Seq<u8>>
    decreases s.len(),
{
    if s.len() == 0 {
        seq![]
    } else {
        match s[0] {
            OutputView::Event(_) => buffers(s.drop_first()),
            OutputView::Buffer { data, .. } => seq![data] + buffers(s.drop_first()),
        }
    }
}

/// The buffers hold the bytes that are handed out.
pub(crate) proof fn lemma_buffers_hold_the_payload(s: Seq<OutputView>)
    ensures
        buffers(s).flatten() == payload(s),
    decreases s.len(),
{
    if s.len() > 0 {
        lemma_buffers_hold_the_payload(s.drop_first());
        match s[0] {
            OutputView::Event(_) => {},
            OutputView::Buffer { data, .. } => {
                let rest = buffers(s.drop_first());
                assert((seq![data] + rest).drop_first() =~= rest);
                assert((seq![data] + rest)[0] == data);
            },
        }
    }
}

/// The bytes of two runs of outputs are the bytes of the first and then those
/// of the second.
pub(crate) proof fn lemma_payload_add(a: Seq<OutputView>, b: Seq<OutputView>)
    ensures
        payload(a + b) == payload(a) + payload(b),
    decreases a.len(),
{
    if a.len() == 0 {
        assert(a + b =~= b);
    } else {
        lemma_payload_add(a.drop_first(), b);
        assert((a + b).drop_first() =~= a.drop_first() + b);
    }
}

/// Appends an output.
pub(crate) fn push_output(outputs: &mut Vec<Output>, o: Output)
    ensures
        views(final(outputs)@) == views(old(outputs)@).push(o@),
{
    outputs.push(o);
    assert(views(outputs@) =~= views(old(outputs)@).push(o@));
}

} // verus!

//! What holds of the FUZ demuxer as a whole.

use crate::bytes::{field, le32, FUZE};
use crate::error::DemuxError;
use crate::files::{le32_bytes, lemma_le32_bytes};
use crate::fuzdemux::{
    fuz_chained, fuz_initial, fuz_start_events, header_of, passed, stripped, FuzHeader, FuzRun,
    FuzStage, FuzView,
};
use crate::laws::{fed, law_any_split};
use crate::output::{
    all_buffers, buffers, lemma_buffers_hold_the_payload, lemma_payload_add, payload, Event,
    OutputView,
};
use crate::typefind::is_fuz;
use crate::written::{lemma_u32, lemma_u32_read, u32_bytes};
use crate::xwmademux::{chained, initial};
use vstd::prelude::*;

verus! {

/// A FUZ file: its version, its lip animation, and the xWMA file in it.
pub open spec fn fuz_file(version: u8, lip: Seq<u8>, audio: Seq<u8>) -> Seq<u8> {
    FUZE@ + seq![version] + le32_bytes(lip.len() as int) + lip + audio
}

/// A FUZ file comes out as stream start, caps and segment, and then the bytes
/// of the xWMA file in it, whatever its version and its lip animation.
pub proof fn law_fuz_comes_out(version: u8, lip: Seq<u8>, audio: Seq<u8>)
    requires
        lip.len() <= u32::MAX,
    ensures
        fuz_chained(fuz_initial(), fuz_file(version, lip, audio)) == (FuzRun {
            next: FuzView {
                buffered: seq![],
                stage: FuzStage::Audio,
                started: true,
                header: Some(FuzHeader { version, lip_size: lip.len() as u32 }),
            },
            out: fuz_start_events() + passed(audio),
            error: None,
        }),
{
    let s = fuz_file(version, lip, audio);
    assert(fuz_initial().buffered + s =~= s);
    assert(field(s, 0, 4) =~= FUZE@);
    assert(field(s, 5, 4) =~= le32_bytes(lip.len() as int));
    lemma_le32_bytes(lip.len() as int, s, 5);
    assert(s.skip(9) =~= lip + audio);
    assert((lip + audio).skip(lip.len() as int) =~= audio);
}

proof fn lemma_passed(s: Seq<u8>)
    ensures
        payload(passed(s)) == s,
        all_buffers(passed(s)),
{
    reveal_with_fuel(payload, 2);
    if s.len() > 0 {
        assert(passed(s).drop_first() =~= seq![]);
    }
    assert(payload(passed(s)) =~= s);
}

proof fn lemma_start_events_hold_nothing()
    ensures
        payload(fuz_start_events()) == Seq::<u8>::empty(),
{
    reveal_with_fuel(payload, 4);
    let s = fuz_start_events();
    assert(s.drop_first().drop_first().drop_first() =~= seq![]);
}

proof fn lemma_stripped_payload(v: FuzView, lip: int, s: Seq<u8>)
    requires
        0 <= lip,
    ensures
        payload(stripped(v, lip, s).out) == (if s.len() < lip {
            seq![]
        } else {
            s.skip(lip)
        }),
{
    if s.len() >= lip {
        let start = if v.started {
            seq![]
        } else {
            fuz_start_events()
        };
        lemma_passed(s.skip(lip));
        lemma_start_events_hold_nothing();
        lemma_payload_add(start, passed(s.skip(lip)));
        assert(payload(start) + s.skip(lip) =~= s.skip(lip));
    }
}

/// How a stream is cut in two plays no part: the bytes that come out are the
/// same, and so are the error and the state that the demuxer is left in.
pub proof fn law_fuz_split(v: FuzView, a: Seq<u8>, b: Seq<u8>)
    ensures
        ({
            let first = fuz_chained(v, a);
            let second = fuz_chained(first.next, b);
            let whole = fuz_chained(v, a + b);
            &&& first.error is Some ==> whole.error == first.error
            &&& first.error is None ==> {
                &&& whole.error == second.error
                &&& whole.next == second.next
                &&& payload(whole.out) == payload(first.out) + payload(second.out)
            }
        }),
{
    let s = v.buffered + a;
    let first = fuz_chained(v, a);
    let second = fuz_chained(first.next, b);
    let whole = fuz_chained(v, a + b);
    assert(v.buffered + (a + b) =~= s + b);
    match v.stage {
        FuzStage::Header => {
            if s.len() < 9 {
                assert(payload(first.out) + payload(second.out) =~= payload(second.out));
            } else {
                assert(field(s + b, 0, 4) =~= field(s, 0, 4));
                if is_fuz(s) {
                    assert(le32(s + b, 5) == le32(s, 5));
                    assert((s + b).skip(9) =~= s.skip(9) + b);
                    let w = FuzView { header: Some(header_of(s)), ..v };
                    lemma_stripped_split(w, le32(s, 5), s.skip(9), b);
                }
            }
        },
        FuzStage::Fnam(r) => {
            lemma_stripped_split(v, r as int, s, b);
        },
        FuzStage::Audio => {
            lemma_passed(s);
            lemma_passed(s + b);
            lemma_passed(b);
            assert(first.next.buffered + b =~= b);
        },
    }
}

proof fn lemma_stripped_split(v: FuzView, lip: int, s: Seq<u8>, b: Seq<u8>)
    requires
        0 <= lip <= u32::MAX,
    ensures
        ({
            let first = stripped(v, lip, s);
            let second = fuz_chained(first.next, b);
            let whole = stripped(v, lip, s + b);
            &&& first.error is None
            &&& whole.error == second.error
            &&& whole.next == second.next
            &&& payload(whole.out) == payload(first.out) + payload(second.out)
        }),
{
    let first = stripped(v, lip, s);
    let none = Seq::<u8>::empty();
    assert(none + b =~= b);
    lemma_stripped_payload(v, lip, s);
    lemma_stripped_payload(v, lip, s + b);
    if s.len() < lip {
        lemma_stripped_payload(first.next, lip - s.len(), b);
        if lip <= s.len() + b.len() {
            assert((s + b).skip(lip) =~= b.skip(lip - s.len()));
        }
        assert(none + payload(fuz_chained(first.next, b).out) =~= payload(
            fuz_chained(first.next, b).out,
        ));
    } else {
        lemma_passed(b);
        assert((s + b).skip(lip) =~= s.skip(lip) + b);
    }
}

/// A demuxer that is fed `pieces` one after the other, up to the first error.
pub open spec fn fuz_fed(v: FuzView, pieces: Seq<Seq<u8>>) -> FuzRun
    decreases pieces.len(),
{
    if pieces.len() == 0 {
        FuzRun { next: v, out: seq![], error: None }
    } else {
        let r = fuz_chained(v, pieces[0]);
        if r.error is Some {
            r
        } else {
            let more = fuz_fed(r.next, pieces.drop_first());
            FuzRun { out: r.out + more.out, ..more }
        }
    }
}

/// The demuxer has consumed as much as it can of what it has buffered.
pub open spec fn fuz_quiet(v: FuzView) -> bool {
    match v.stage {
        FuzStage::Header => v.buffered.len() < 9,
        FuzStage::Fnam(r) => v.buffered.len() == 0 && r > 0,
        FuzStage::Audio => v.buffered.len() == 0,
    }
}

/// A demuxer has nothing left to do at first, nor after a buffer that it
/// accepts.
pub proof fn law_fuz_stays_quiet(v: FuzView, data: Seq<u8>)
    ensures
        fuz_quiet(fuz_initial()),
        fuz_chained(v, data).error is None ==> fuz_quiet(fuz_chained(v, data).next),
{
}

/// The xWMA file is reached by a stream that has started.
pub open spec fn fuz_orderly(v: FuzView) -> bool {
    v.stage is Audio ==> v.started
}

/// `out` starts the stream, if it starts here, and then holds bytes only.
pub open spec fn starts_first(before: FuzView, after: FuzView, out: Seq<OutputView>) -> bool {
    if before.started {
        all_buffers(out)
    } else if after.started {
        &&& out.len() >= 3
        &&& out.take(3) == fuz_start_events()
        &&& all_buffers(out.skip(3))
    } else {
        out.len() == 0
    }
}

/// A stream starts once, and before its first byte: a buffer yields bytes
/// only if the stream has started; if not, nothing, or stream start, caps and
/// segment and then bytes only.
pub proof fn law_fuz_starts_once(v: FuzView, data: Seq<u8>)
    requires
        fuz_orderly(v),
    ensures
        ({
            let r = fuz_chained(v, data);
            &&& fuz_orderly(r.next)
            &&& v.started ==> r.next.started
            &&& starts_first(v, r.next, r.out)
        }),
{
    let r = fuz_chained(v, data);
    if !v.started && r.next.started {
        assert(r.out.take(3) =~= fuz_start_events());
    }
}

/// How a stream is cut into buffers plays no part: in one piece or in many,
/// it meets the same error; if it meets none, the same bytes come out, after
/// stream start, caps and segment if the stream starts here, and the demuxer
/// is left in the same state.
pub proof fn law_fuz_pieces(v: FuzView, pieces: Seq<Seq<u8>>)
    requires
        fuz_quiet(v),
        fuz_orderly(v),
    ensures
        ({
            let r = fuz_fed(v, pieces);
            let whole = fuz_chained(v, pieces.flatten());
            &&& r.error == whole.error
            &&& r.error is None ==> {
                &&& r.next == whole.next
                &&& payload(r.out) == payload(whole.out)
                &&& starts_first(v, r.next, r.out)
                &&& starts_first(v, r.next, whole.out)
            }
        }),
    decreases pieces.len(),
{
    law_fuz_starts_once(v, pieces.flatten());
    if pieces.len() == 0 {
        assert(v.buffered + pieces.flatten() =~= v.buffered);
        assert(fuz_chained(v, pieces.flatten()).next =~= v);
        assert(fuz_chained(v, pieces.flatten()).out =~= seq![]);
    } else {
        let a = pieces[0];
        let b = pieces.drop_first().flatten();
        assert(pieces.flatten() =~= a + b);
        law_fuz_split(v, a, b);
        law_fuz_starts_once(v, a);
        let r = fuz_chained(v, a);
        if r.error is None {
            let more = fuz_fed(r.next, pieces.drop_first());
            law_fuz_pieces(r.next, pieces.drop_first());
            lemma_payload_add(r.out, more.out);
            if !v.started && more.next.started {
                if r.next.started {
                    assert((r.out + more.out).take(3) =~= r.out.take(3));
                    assert((r.out + more.out).skip(3) =~= r.out.skip(3) + more.out);
                } else {
                    assert(r.out + more.out =~= more.out);
                }
            }
        }
    }
}

/// In whatever pieces a FUZ file comes in, out come stream start, caps and
/// segment, and then the bytes of the xWMA file in it.
pub proof fn law_fuz_any_split(version: u8, lip: Seq<u8>, audio: Seq<u8>, pieces: Seq<Seq<u8>>)
    requires
        lip.len() <= u32::MAX,
        pieces.flatten() == fuz_file(version, lip, audio),
    ensures
        ({
            let r = fuz_fed(fuz_initial(), pieces);
            &&& r.error is None
            &&& r.next == fuz_chained(fuz_initial(), fuz_file(version, lip, audio)).next
            &&& r.out.len() >= 3
            &&& r.out.take(3) == fuz_start_events()
            &&& all_buffers(r.out.skip(3))
            &&& payload(r.out) == audio
        }),
{
    law_fuz_comes_out(version, lip, audio);
    lemma_passed(audio);
    lemma_start_events_hold_nothing();
    lemma_payload_add(fuz_start_events(), passed(audio));
    assert(Seq::<u8>::empty() + audio =~= audio);
    law_fuz_pieces(fuz_initial(), pieces);
}

/// A FUZ file that goes through both demuxers, in whatever pieces, gives what
/// the xWMA file in it gives through one: the same outputs, the same state and
/// so the same answers and the same last words; or it is refused with the same
/// error.
pub proof fn law_fuz_plays_as_its_xwma(
    version: u8,
    lip: Seq<u8>,
    audio: Seq<u8>,
    pieces: Seq<Seq<u8>>,
)
    requires
        lip.len() <= u32::MAX,
        pieces.flatten() == fuz_file(version, lip, audio),
    ensures
        ({
            let through_both = fed(initial(), buffers(fuz_fed(fuz_initial(), pieces).out));
            let alone = chained(initial(), audio);
            &&& alone.error is None ==> through_both == alone
            &&& through_both.error == alone.error
            &&& through_both.parser == alone.parser
        }),
{
    let out = fuz_fed(fuz_initial(), pieces).out;
    law_fuz_any_split(version, lip, audio, pieces);
    lemma_buffers_hold_the_payload(out);
    law_any_split(initial(), buffers(out));
}

/// The type finder and the demuxer agree: a stream whose header is there is
/// refused exactly where the type finder does not know it.
pub proof fn law_fuz_typefind_agrees(data: Seq<u8>)
    requires
        data.len() >= 9,
    ensures
        fuz_chained(fuz_initial(), data).error == Some(DemuxError::NotFuz) <==> !is_fuz(data),
        fuz_chained(fuz_initial(), data).error is None <==> is_fuz(data),
{
    assert(fuz_initial().buffered + data =~= data);
}

// ---------------------------------------------------------------------------
// What is written in a file, number by number.

/// The first four bytes are `FUZE`.
pub open spec fn spells_fuze(s: Seq<u8>) -> bool {
    s.len() >= 4 && s[0] == 0x46 && s[1] == 0x55 && s[2] == 0x5a && s[3] == 0x45
}

/// What the type finder looks for.
pub(crate) proof fn lemma_fuze(s: Seq<u8>)
    ensures
        is_fuz(s) <==> spells_fuze(s),
{
    if s.len() >= 4 {
        let a = field(s, 0, 4);
        assert(a[0] == s[0] && a[1] == s[1] && a[2] == s[2] && a[3] == s[3]);
        if spells_fuze(s) {
            assert(a =~= FUZE@);
        }
    }
}

/// A new demuxer has seen nothing and knows nothing.
pub proof fn law_new_fuz_demuxer_knows_nothing()
    ensures
        ({
            let v = fuz_initial();
            v.buffered.len() == 0 && v.stage is Header && !v.started && v.header is None
        }),
{
}

/// The type finder knows a file by its first four bytes, and the demuxer takes
/// and refuses streams by the same, once nine have come in: a stream that is
/// refused is kept, so that the next buffer is refused too; of another, the
/// fifth byte is the version and the next four spell the size of the lip
/// animation, which follows.
pub proof fn law_fuz_header_decides(v: FuzView, data: Seq<u8>)
    requires
        v.stage is Header,
    ensures
        ({
            let s = v.buffered + data;
            let r = fuz_chained(v, data);
            &&& is_fuz(s) <==> spells_fuze(s)
            &&& r.error == Some(DemuxError::NotFuz) <==> s.len() >= 9 && !spells_fuze(s)
            &&& s.len() < 9 || !spells_fuze(s) ==> {
                &&& r.out.len() == 0
                &&& r.next == (FuzView { buffered: s, ..v })
            }
            &&& s.len() >= 9 && spells_fuze(s) ==> {
                &&& r.error is None
                &&& r.next.header matches Some(h) && h.version == s[4] && u32_bytes(h.lip_size)
                    == s.subrange(5, 9)
                &&& r == fuz_chained(
                    FuzView {
                        buffered: s.skip(9),
                        stage: FuzStage::Fnam(r.next.header.unwrap().lip_size),
                        header: r.next.header,
                        ..v
                    },
                    seq![],
                )
            }
        }),
{
    let s = v.buffered + data;
    lemma_fuze(s);
    if s.len() >= 9 && spells_fuze(s) {
        lemma_u32_read(s, 5);
        assert(s.skip(9) + Seq::<u8>::empty() =~= s.skip(9));
    }
}

/// `out` is what starts a stream, and then `s` as one buffer without a time
/// stamp, if there is anything in it.
pub open spec fn hands_out(out: Seq<OutputView>, starts: bool, s: Seq<u8>) -> bool {
    let n = if starts {
        3int
    } else {
        0
    };
    &&& starts ==> {
        &&& out.len() >= 3
        &&& out[0] == OutputView::Event(Event::StreamStart)
        &&& out[1] == OutputView::Event(Event::XwmaCaps)
        &&& out[2] == OutputView::Event(
            Event::Segment { start: 0, stop: None, rate: 0x3ff0_0000_0000_0000 },
        )
    }
    &&& s.len() == 0 ==> out.len() == n
    &&& s.len() > 0 ==> out.len() == n + 1 && out[n] == (OutputView::Buffer { data: s, pts: None })
}

/// The lip animation, as many bytes of it as are still to come, is dropped.
/// After its last byte the stream starts, if it has not started, and the rest
/// is handed out.
pub proof fn law_lip_animation_is_dropped(v: FuzView, data: Seq<u8>)
    requires
        v.stage is Fnam,
    ensures
        ({
            let s = v.buffered + data;
            let lip = v.stage->Fnam_0;
            let r = fuz_chained(v, data);
            &&& r.error is None
            &&& r.next.buffered.len() == 0
            &&& r.next.header == v.header
            &&& s.len() < lip ==> {
                &&& r.out.len() == 0
                &&& r.next.stage == FuzStage::Fnam((lip - s.len()) as u32)
                &&& r.next.started == v.started
            }
            &&& s.len() >= lip ==> {
                &&& hands_out(r.out, !v.started, s.skip(lip as int))
                &&& r.next.stage is Audio
                &&& r.next.started
            }
        }),
{
}

/// The bytes of the xWMA file are handed out as they come in, one buffer for
/// one.
pub proof fn law_audio_is_passed_on(v: FuzView, data: Seq<u8>)
    requires
        v.stage is Audio,
    ensures
        ({
            let r = fuz_chained(v, data);
            &&& r.error is None
            &&& hands_out(r.out, false, v.buffered + data)
            &&& r.next == (FuzView { buffered: seq![], ..v })
        }),
{
}

/// A FUZ file as it is written.
pub open spec fn written_fuz(version: u8, lip: Seq<u8>, audio: Seq<u8>) -> Seq<u8> {
    seq![0x46u8, 0x55, 0x5a, 0x45, version] + u32_bytes(lip.len() as u32) + lip + audio
}

/// A FUZ file is read as it was written, for as much of it as has come in: no
/// error; the version and the size of the lip animation once the header is
/// there; nothing handed out before the end of the lip animation, and from then
/// on the start of a stream and the bytes of the xWMA file, all that are there.
pub proof fn law_fuz_is_read_as_written(version: u8, lip: Seq<u8>, audio: Seq<u8>, n: int)
    requires
        lip.len() <= u32::MAX,
        0 <= n <= written_fuz(version, lip, audio).len(),
    ensures
        ({
            let r = fuz_chained(fuz_initial(), written_fuz(version, lip, audio).take(n));
            let before = 9 + lip.len();
            &&& r.error is None
            &&& n < 9 ==> r.next.header is None
            &&& n >= 9 ==> r.next.header == Some(
                FuzHeader { version, lip_size: lip.len() as u32 },
            )
            &&& n < before ==> r.out.len() == 0
            &&& n >= before ==> hands_out(r.out, true, audio.take(n - before))
        }),
{
    let file = written_fuz(version, lip, audio);
    let s = file.take(n);
    let before = 9 + lip.len();
    assert(fuz_initial().buffered + s =~= s);
    lemma_fuze(s);
    if n >= 9 {
        lemma_u32(lip.len() as u32, s, 5);
        if n >= before {
            assert(s.skip(9).skip(lip.len() as int) =~= audio.take(n - before));
        }
    }
}

} // verus!

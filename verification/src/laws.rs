//! What holds of the xWMA demuxer as a whole.

use crate::bytes::{field, le32, DATA};
use crate::error::DemuxError;
use crate::model::{
    advance, fresh, lemma_run_step, lemma_run_waits, odd, packet, rank, run, saturating,
    start_events, DataChunk, ParserView, Run, Stage, Step,
};
use crate::output::{all_buffers, lemma_payload_add, payload, OutputView};
use crate::timeline::{blocks, lemma_last_block, packet_time};
use crate::typefind::is_xwma;
use crate::xwmademux::{
    after_announcement, announces, chained, drained, flushed, held, initial, last_words, settled,
    DemuxView,
};
use vstd::prelude::*;

verus! {

// ---------------------------------------------------------------------------
// Where the input is cut plays no part.

/// A run over `a` and then `b` is the run over `a`, followed by the run over
/// what that left and then `b`. Where the run over `a` stops at an error, so
/// does the run over both.
pub proof fn law_run_splits(p: ParserView, a: Seq<u8>, b: Seq<u8>)
    ensures
        run(p, a).error is None ==> run(p, a + b) == run(run(p, a).parser, run(p, a).rest + b).after(
            run(p, a).out,
        ),
        run(p, a).error is Some ==> run(p, a + b) == (Run {
            rest: run(p, a).rest + b,
            ..run(p, a)
        }),
    decreases a.len(), rank(p),
{
    let n = p.need();
    let none = Seq::<OutputView>::empty();
    if a.len() < n {
        lemma_run_waits(p, a);
        let r = run(p, a + b);
        assert(none + r.out =~= r.out);
    } else {
        lemma_run_step(p, a, none);
        lemma_run_step(p, a + b, none);
        let (one, both) = (run(p, a), run(p, a + b));
        assert(none + one.out =~= one.out && none + both.out =~= both.out);
        assert((a + b).take(n) =~= a.take(n));
        match advance(p, a.take(n)) {
            Step::Go { next, out } => {
                law_run_splits(next, a.skip(n), b);
                assert((a + b).skip(n) =~= a.skip(n) + b);
                assert(none + out =~= out);
                let first = run(next, a.skip(n));
                if first.error is None {
                    let second = run(first.parser, first.rest + b);
                    assert(out + (first.out + second.out) =~= (out + first.out) + second.out);
                }
            },
            Step::Fail { used, .. } => {
                assert((a + b).skip(used) =~= a.skip(used) + b);
            },
        }
    }
}

/// The demuxer has consumed as much as it can of what it has buffered.
pub open spec fn quiet(v: DemuxView) -> bool {
    v.buffered.len() < v.parser.need()
}

/// A run that meets no error goes on until the input runs out.
pub proof fn law_run_is_complete(p: ParserView, input: Seq<u8>)
    ensures
        run(p, input).error is None ==> run(p, input).rest.len() < run(p, input).parser.need(),
    decreases input.len(), rank(p),
{
    if input.len() >= p.need() {
        match advance(p, input.take(p.need())) {
            Step::Go { next, .. } => law_run_is_complete(next, input.skip(p.need())),
            Step::Fail { .. } => {},
        }
    }
}

/// A demuxer that is fed `pieces` one after the other, up to the first error.
pub open spec fn fed(v: DemuxView, pieces: Seq<Seq<u8>>) -> Run
    decreases pieces.len(),
{
    if pieces.len() == 0 {
        Run { parser: v.parser, rest: v.buffered, out: seq![], error: None }
    } else {
        let r = chained(v, pieces[0]);
        if r.error is Some {
            r
        } else {
            fed(settled(v, r), pieces.drop_first()).after(r.out)
        }
    }
}

/// How a stream is cut into buffers plays no part: one that is accepted in
/// one piece is accepted in any pieces, with the same outputs, and leaves the
/// demuxer in the same state; one that is refused is refused with the same
/// error.
pub proof fn law_any_split(v: DemuxView, pieces: Seq<Seq<u8>>)
    requires
        quiet(v),
    ensures
        ({
            let whole = chained(v, pieces.flatten());
            &&& whole.error is None ==> fed(v, pieces) == whole
            &&& fed(v, pieces).error == whole.error
            &&& fed(v, pieces).parser == whole.parser
        }),
    decreases pieces.len(),
{
    if pieces.len() == 0 {
        assert(v.buffered + pieces.flatten() =~= v.buffered);
        lemma_run_waits(v.parser, v.buffered);
    } else {
        let a = pieces[0];
        let b = pieces.drop_first().flatten();
        assert(v.buffered + pieces.flatten() =~= (v.buffered + a) + b);
        law_run_splits(v.parser, v.buffered + a, b);
        law_run_is_complete(v.parser, v.buffered + a);
        if chained(v, a).error is None {
            law_any_split(settled(v, chained(v, a)), pieces.drop_first());
        }
    }
}

/// Cutting a stream in two changes neither the error at which it is refused
/// nor the state in which that leaves the demuxer.
pub proof fn law_split_keeps_errors(v: DemuxView, a: Seq<u8>, b: Seq<u8>)
    ensures
        ({
            let first = chained(v, a);
            let second = chained(settled(v, first), b);
            let whole = chained(v, a + b);
            &&& first.error is Some ==> whole.error == first.error && whole.parser == first.parser
            &&& first.error is None ==> whole.error == second.error && settled(v, whole) == settled(
                settled(v, first),
                second,
            ) && whole.out == first.out + second.out
        }),
{
    law_run_splits(v.parser, v.buffered + a, b);
    assert(v.buffered + (a + b) =~= (v.buffered + a) + b);
}

/// What a run leaves is the end of its input, and the position counts what it
/// has consumed.
pub proof fn law_run_consumes_in_order(p: ParserView, input: Seq<u8>)
    ensures
        ({
            let r = run(p, input);
            let used = input.len() - r.rest.len();
            &&& 0 <= used
            &&& r.rest == input.skip(used)
            &&& r.parser.position == saturating(p.position, used)
        }),
    decreases input.len(), rank(p),
{
    let n = p.need();
    if input.len() < n {
        assert(input.skip(0) =~= input);
    } else {
        match advance(p, input.take(n)) {
            Step::Go { next, .. } => {
                law_run_consumes_in_order(next, input.skip(n));
                let r = run(next, input.skip(n));
                assert(input.skip(n).skip(input.skip(n).len() - r.rest.len()) =~= input.skip(
                    input.len() - r.rest.len(),
                ));
            },
            Step::Fail { .. } => {},
        }
    }
}

// ---------------------------------------------------------------------------
// The order of what is handed out.

/// In a `data` chunk the format is known and the stream has started.
pub open spec fn orderly(p: ParserView) -> bool {
    p.stage is Data ==> p.started && p.fmt is Some && !p.skip
}

/// A stream starts once, and before its first packet: a run hands out
/// packets only if the stream has started; if not, nothing, or stream start,
/// caps and segment and then packets only.
pub proof fn law_starts_once(p: ParserView, input: Seq<u8>)
    requires
        orderly(p),
    ensures
        ({
            let r = run(p, input);
            &&& orderly(r.parser)
            &&& p.started ==> r.parser.started && all_buffers(r.out)
            &&& !r.parser.started ==> r.out.len() == 0
            &&& !p.started && r.parser.started ==> exists|f: crate::format::Fmt|
                {
                    &&& r.out.len() >= 3
                    &&& r.out.take(3) == #[trigger] start_events(f)
                    &&& all_buffers(r.out.skip(3))
                }
        }),
    decreases input.len(), rank(p),
{
    let n = p.need();
    if input.len() >= n {
        match advance(p, input.take(n)) {
            Step::Go { next, out } => {
                law_starts_once(next, input.skip(n));
                let tail = run(next, input.skip(n)).out;
                if !p.started && next.started {
                    let f = p.fmt.unwrap();
                    assert((out + tail).take(3) =~= start_events(f));
                    assert((out + tail).skip(3) =~= tail);
                } else if !p.started {
                    assert(out + tail =~= tail);
                }
            },
            Step::Fail { .. } => {},
        }
    }
}

/// A demuxer starts out orderly and stays so, whatever it is told.
pub proof fn law_stays_orderly(v: DemuxView, data: Seq<u8>)
    ensures
        orderly(initial().parser),
        orderly(v.parser) ==> orderly(chained(v, data).parser),
        orderly(v.parser) ==> orderly(drained(v).parser),
        orderly(v.parser) ==> orderly(flushed(v).parser),
{
    if orderly(v.parser) {
        law_starts_once(v.parser, v.buffered + data);
    }
}

// ---------------------------------------------------------------------------
// Type detection.

/// Only the first step of a stream can find that it is no xWMA stream.
pub(crate) proof fn lemma_header_error_comes_first(p: ParserView, input: Seq<u8>)
    requires
        !(p.stage is RiffHeader),
    ensures
        run(p, input).error != Some(DemuxError::NotXwma),
    decreases input.len(), rank(p),
{
    if input.len() >= p.need() {
        match advance(p, input.take(p.need())) {
            Step::Go { next, .. } => lemma_header_error_comes_first(next, input.skip(p.need())),
            Step::Fail { .. } => {},
        }
    }
}

/// The type finder and the demuxer agree: a stream whose header is there is
/// refused as no xWMA stream exactly where the type finder does not know it.
pub proof fn law_typefind_agrees(input: Seq<u8>)
    requires
        input.len() >= 12,
    ensures
        run(fresh(), input).error == Some(DemuxError::NotXwma) <==> !is_xwma(input),
{
    let b = input.take(12);
    assert(field(b, 0, 4) =~= field(input, 0, 4));
    assert(field(b, 8, 4) =~= field(input, 8, 4));
    match advance(fresh(), b) {
        Step::Go { next, .. } => lemma_header_error_comes_first(next, input.skip(12)),
        Step::Fail { .. } => {},
    }
}

// ---------------------------------------------------------------------------
// Packets.

/// The packets that the bytes `body` of a `data` chunk make: one for every
/// `block_align` bytes, and one for what is left at the end.
pub open spec fn packets(p: ParserView, body: Seq<u8>) -> Seq<OutputView> {
    let size = p.packet_size();
    Seq::new(
        blocks(body.len() as int, size) as nat,
        |i: int|
            OutputView::Buffer {
                data: body.subrange(
                    i * size,
                    if (i + 1) * size <= body.len() {
                        (i + 1) * size
                    } else {
                        body.len() as int
                    },
                ),
                pts: packet_time(p.fmt, p.index, p.next_packet + i),
            },
    )
}

/// The parser after the packets of a `data` chunk of `size` bytes.
pub open spec fn after_data(p: ParserView, body: Seq<u8>, pad: bool) -> ParserView {
    ParserView {
        skip: pad,
        stage: Stage::ChunkHeader,
        next_packet: (p.next_packet + packets(p, body).len()) as u64,
        ..p.moved(body.len() as int)
    }
}

/// The first packet, and then the packets of the rest.
pub(crate) proof fn lemma_packets_first(p: ParserView, body: Seq<u8>)
    requires
        body.len() > 0,
        p.next_packet < u64::MAX,
    ensures
        ({
            let n = if p.packet_size() <= body.len() {
                p.packet_size()
            } else {
                body.len() as int
            };
            let q = ParserView { next_packet: (p.next_packet + 1) as u64, ..p };
            packets(p, body) == seq![packet(p, body.take(n))] + packets(q, body.skip(n))
        }),
{
    let size = p.packet_size();
    let len = body.len() as int;
    let n = if size <= len {
        size
    } else {
        len
    };
    let q = ParserView { next_packet: (p.next_packet + 1) as u64, ..p };
    let all = packets(p, body);
    let rest = packets(q, body.skip(n));
    let count = blocks(len, size);
    let fewer = blocks(len - n, size);
    vstd::arithmetic::div_mod::lemma_div_pos_is_pos(len - n + size - 1, size);
    lemma_last_block(len, size);
    if size <= len {
        vstd::arithmetic::div_mod::lemma_div_plus_one(len - size + size - 1, size);
        assert(count == fewer + 1);
    } else {
        vstd::arithmetic::div_mod::lemma_basic_div(size - 1, size);
        vstd::arithmetic::div_mod::lemma_div_plus_one(len - 1, size);
        vstd::arithmetic::div_mod::lemma_basic_div(len - 1, size);
        assert(count == 1 && fewer == 0);
    }
    let both = seq![packet(p, body.take(n))] + rest;
    assert(all.len() == both.len());
    assert forall|i: int| 0 <= i < all.len() implies all[i] == both[i] by {
        if i == 0 {
            assert(0 * size == 0 && 1 * size == size);
            assert(body.subrange(0, n) =~= body.take(n));
        } else {
            let j = i - 1;
            assert((j + 1) * size == j * size + size && (j + 2) * size == j * size + 2 * size)
                by (nonlinear_arith);
            assert(j * size >= 0) by (nonlinear_arith)
                requires
                    j >= 0,
                    size >= 1,
            ;
            assert((j + 1) * size <= (count - 1) * size) by (nonlinear_arith)
                requires
                    j + 1 <= count - 1,
                    size >= 1,
            ;
            let end = if (j + 2) * size <= len {
                (j + 2) * size
            } else {
                len
            };
            assert(body.skip(n).subrange(j * size, end - size) =~= body.subrange(
                (j + 1) * size,
                end,
            ));
        }
    }
    assert(all =~= both);
}

/// A `data` chunk comes out as its packets: one per buffer, `block_align`
/// bytes each but for a shorter last one, each with the time at which it
/// starts. Then the next chunk is due.
pub proof fn law_data_comes_out_in_packets(p: ParserView, body: Seq<u8>, pad: bool, rest: Seq<u8>)
    requires
        !p.skip,
        body.len() <= u32::MAX,
        p.stage == (Stage::Data { remaining: body.len() as u32, pad }),
        p.next_packet + body.len() <= u64::MAX,
    ensures
        run(p, body + rest) == run(after_data(p, body, pad), rest).after(packets(p, body)),
    decreases body.len(),
{
    let n = p.need();
    let input = body + rest;
    if body.len() == 0 {
        vstd::arithmetic::div_mod::lemma_basic_div(p.packet_size() - 1, p.packet_size());
        assert(packets(p, body) =~= seq![]);
        assert(input.take(0) =~= seq![]);
        assert(input.skip(0) =~= rest);
        assert(saturating(p.position, 0) == p.position);
        assert(after_data(p, body, pad) == (ParserView {
            skip: pad,
            stage: Stage::ChunkHeader,
            ..p
        }));
    } else {
        let b = body.take(n);
        let left = body.skip(n);
        assert(input.take(n) =~= b);
        assert(input.skip(n) =~= left + rest);
        lemma_packets_first(p, body);
        let q = ParserView { next_packet: (p.next_packet + 1) as u64, ..p };
        if left.len() == 0 {
            assert(left =~= seq![]);
            vstd::arithmetic::div_mod::lemma_basic_div(p.packet_size() - 1, p.packet_size());
            assert(packets(q, left) =~= seq![]);
            assert(packets(p, body) =~= seq![packet(p, b)]);
            assert(left + rest =~= rest);
        } else {
            let next = ParserView {
                stage: Stage::Data { remaining: left.len() as u32, pad },
                ..q.moved(n)
            };
            law_data_comes_out_in_packets(next, left, pad, rest);
            assert(packets(next, left) =~= packets(q, left));
            assert(after_data(next, left, pad) == after_data(p, body, pad));
            let r = run(after_data(p, body, pad), rest);
            assert(seq![packet(p, b)] + (packets(q, left) + r.out) =~= packets(p, body) + r.out);
        }
    }
}

/// The packets of a `data` chunk hold its bytes, all of them, in order.
pub proof fn law_packets_hold_the_data(p: ParserView, body: Seq<u8>)
    requires
        p.next_packet + body.len() <= u64::MAX,
    ensures
        payload(packets(p, body)) == body,
    decreases body.len(),
{
    if body.len() == 0 {
        vstd::arithmetic::div_mod::lemma_basic_div(p.packet_size() - 1, p.packet_size());
        assert(packets(p, body) =~= seq![]);
        assert(body =~= seq![]);
    } else {
        let n = if p.packet_size() <= body.len() {
            p.packet_size()
        } else {
            body.len() as int
        };
        let q = ParserView { next_packet: (p.next_packet + 1) as u64, ..p };
        lemma_packets_first(p, body);
        law_packets_hold_the_data(q, body.skip(n));
        let first = seq![packet(p, body.take(n))];
        lemma_payload_add(first, packets(q, body.skip(n)));
        assert(first.drop_first() =~= seq![]);
        assert(payload(first) =~= body.take(n)) by {
            reveal_with_fuel(payload, 2);
        }
        assert(body.take(n) + body.skip(n) =~= body);
    }
}

/// Where the input ends inside a `data` chunk, no byte of it is lost: what is
/// handed out as it comes in, and what is handed out at the end, are together
/// the bytes that came in. What is held until the end is what is left of them
/// after whole packets.
pub proof fn law_truncated_data_comes_out(v: DemuxView, data: Seq<u8>, remaining: u32, pad: bool)
    requires
        v.parser.stage == (Stage::Data { remaining, pad }),
        !v.parser.skip,
        v.buffered.len() + data.len() < remaining,
    ensures
        ({
            let r = chained(v, data);
            let w = settled(v, r);
            &&& r.error is None
            &&& payload(r.out) + payload(last_words(w)) == v.buffered + data
            &&& held(w).len() == (v.buffered + data).len() as int % v.parser.packet_size()
            &&& drained(w).buffered.len() == 0
        }),
{
    let s = v.buffered + data;
    lemma_truncated(v.parser, s, remaining, pad);
    let r = run(v.parser, s);
    let w = settled(v, r);
    assert(held(w) == r.rest);
    assert(payload(last_words(w)) =~= r.rest) by {
        reveal_with_fuel(payload, 2);
        assert(seq![packet(w.parser, held(w))].drop_first() =~= seq![]);
    }
}

proof fn lemma_truncated(p: ParserView, s: Seq<u8>, remaining: u32, pad: bool)
    requires
        p.stage == (Stage::Data { remaining, pad }),
        !p.skip,
        s.len() < remaining,
    ensures
        ({
            let r = run(p, s);
            &&& r.error is None
            &&& payload(r.out) + r.rest == s
            &&& r.rest.len() == s.len() as int % p.packet_size()
            &&& r.parser.stage == (Stage::Data {
                remaining: (remaining - (s.len() - r.rest.len())) as u32,
                pad,
            })
        }),
    decreases s.len(),
{
    let n = p.need();
    if s.len() < n {
        assert(payload(Seq::<OutputView>::empty()) + s =~= s);
        vstd::arithmetic::div_mod::lemma_small_mod(s.len(), p.packet_size() as nat);
    } else {
        assert(n == p.packet_size());
        vstd::arithmetic::div_mod::lemma_mod_sub_multiples_vanish(s.len() as int, n);
        let b = s.take(n);
        match advance(p, b) {
            Step::Go { next, out } => {
                lemma_truncated(next, s.skip(n), (remaining - n) as u32, pad);
                let r = run(next, s.skip(n));
                lemma_payload_add(out, r.out);
                assert(payload(out) =~= b) by {
                    reveal_with_fuel(payload, 2);
                    assert(seq![packet(p, b)].drop_first() =~= seq![]);
                }
                assert(b + s.skip(n) =~= s);
                assert(payload(out) + payload(r.out) + r.rest =~= b + (payload(r.out) + r.rest));
            },
            Step::Fail { .. } => {},
        }
    }
}

// ---------------------------------------------------------------------------
// Where the packets are.

/// `d` is the body of a `data` chunk of the stream `s`.
pub open spec fn is_data_of(d: DataChunk, s: Seq<u8>) -> bool {
    &&& 8 <= d.offset <= s.len()
    &&& field(s, d.offset - 8, 4) == DATA@
    &&& le32(s, d.offset - 4) == d.size
    &&& d.pad == odd(d.size as int)
}

proof fn lemma_located(p: ParserView, s: Seq<u8>)
    requires
        s.len() < u64::MAX,
        p.position <= s.len(),
        p.data matches Some(d) ==> is_data_of(d, s),
    ensures
        ({
            let r = run(p, s.skip(p.position as int)).parser;
            r.data matches Some(d) ==> is_data_of(d, s)
        }),
    decreases s.len() - p.position, rank(p),
{
    let input = s.skip(p.position as int);
    let n = p.need();
    if input.len() >= n {
        let b = input.take(n);
        match advance(p, b) {
            Step::Go { next, .. } => {
                assert(next.position == p.position + n);
                assert(input.skip(n) =~= s.skip(next.position as int));
                if p.stage is ChunkHeader && !p.skip {
                    assert(field(b, 0, 4) =~= field(s, p.position as int, 4));
                    assert(le32(b, 4) == le32(s, p.position + 4));
                }
                lemma_located(next, s);
            },
            Step::Fail { .. } => {},
        }
    }
}

/// The demuxer knows where the packets are: what it takes for the first
/// `data` chunk of a stream is one.
pub proof fn law_data_is_located(s: Seq<u8>)
    requires
        s.len() < u64::MAX,
    ensures
        chained(initial(), s).parser.data matches Some(d) ==> is_data_of(d, s),
{
    assert(s.skip(0) =~= s);
    assert(initial().buffered + s =~= s);
    lemma_located(fresh(), s);
}

/// A demuxer has nothing left to do at first, nor after a buffer that it
/// accepts.
pub proof fn law_stays_quiet(v: DemuxView, data: Seq<u8>)
    ensures
        quiet(initial()),
        chained(v, data).error is None ==> quiet(settled(v, chained(v, data))),
{
    law_run_is_complete(v.parser, v.buffered + data);
}

// ---------------------------------------------------------------------------
// What happens once.

/// The duration of a stream is announced once: whatever comes in after it has
/// been, and after its end, there is nothing to announce.
pub proof fn law_announces_once(v: DemuxView, data: Seq<u8>)
    ensures
        !announces(after_announcement(v)),
        v.announced ==> !announces(settled(v, chained(v, data))) && settled(
            v,
            chained(v, data),
        ).announced,
        v.announced ==> !announces(drained(v)) && drained(v).announced,
{
}

/// At the end of the input nothing is handed out twice.
pub proof fn law_drains_once(v: DemuxView)
    ensures
        last_words(drained(v)).len() == 0,
        drained(drained(v)) == drained(v),
{
}

/// The first buffer in `s`.
pub open spec fn first_buffer(s: Seq<OutputView>) -> Option<OutputView>
    decreases s.len(),
{
    if s.len() == 0 {
        None
    } else if s[0] is Buffer {
        Some(s[0])
    } else {
        first_buffer(s.drop_first())
    }
}

proof fn lemma_first_buffer_add(a: Seq<OutputView>, b: Seq<OutputView>)
    ensures
        first_buffer(a + b) == (if first_buffer(a) is Some {
            first_buffer(a)
        } else {
            first_buffer(b)
        }),
    decreases a.len(),
{
    if a.len() == 0 {
        assert(a + b =~= b);
    } else if !(a[0] is Buffer) {
        lemma_first_buffer_add(a.drop_first(), b);
        assert((a + b).drop_first() =~= a.drop_first() + b);
    }
}

/// The first packet of a stream starts at time 0, whether it is handed out as
/// it comes in or at the end of the input.
pub proof fn law_first_packet_starts_at_zero(v: DemuxView, data: Seq<u8>)
    requires
        v.parser.next_packet == 0,
    ensures
        ({
            let r = chained(v, data);
            &&& first_buffer(r.out) is None ==> r.parser.next_packet == 0
            &&& first_buffer(r.out) matches Some(OutputView::Buffer { pts, .. }) ==> pts == Some(
                0u64,
            )
        }),
        first_buffer(last_words(v)) matches Some(OutputView::Buffer { pts, .. }) ==> pts == Some(
            0u64,
        ),
{
    lemma_first_packet(v.parser, v.buffered + data);
}

proof fn lemma_first_packet(p: ParserView, input: Seq<u8>)
    requires
        p.next_packet == 0,
    ensures
        first_buffer(run(p, input).out) is None ==> run(p, input).parser.next_packet == 0,
        first_buffer(run(p, input).out) matches Some(OutputView::Buffer { pts, .. }) ==> pts
            == Some(0u64),
    decreases input.len(), rank(p),
{
    let n = p.need();
    if input.len() >= n {
        let b = input.take(n);
        match advance(p, b) {
            Step::Go { next, out } => {
                let r = run(next, input.skip(n));
                lemma_first_buffer_add(out, r.out);
                reveal_with_fuel(first_buffer, 4);
                if next.next_packet == 0 {
                    lemma_first_packet(next, input.skip(n));
                    assert(first_buffer(out) is None);
                } else {
                    assert(out[0] == packet(p, b));
                }
            },
            Step::Fail { .. } => {},
        }
    }
}

} // verus!

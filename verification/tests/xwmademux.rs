use gstxwm::error::DemuxError;
use gstxwm::events::{
    Answer, Query, SeekStop, SinkEvent, SrcAction, SrcEvent, StateChange,
};
use gstxwm::format::Fmt;
use gstxwm::output::{Event, Output, Packet, WmaCaps, NORMAL_RATE, WMA_CAPS};
use gstxwm::xwmademux::XwmaDemux;

fn chunk(id: &[u8; 4], body: &[u8]) -> Vec<u8> {
    let mut v = Vec::new();
    v.extend_from_slice(id);
    v.extend_from_slice(&(body.len() as u32).to_le_bytes());
    v.extend_from_slice(body);
    if body.len() % 2 == 1 {
        v.push(0); // RIFF word padding
    }
    v
}

fn waveformatex(tag: u16, channels: u16, rate: u32, block_align: u16) -> Vec<u8> {
    let mut fmt = Vec::new();
    fmt.extend_from_slice(&tag.to_le_bytes());
    fmt.extend_from_slice(&channels.to_le_bytes());
    fmt.extend_from_slice(&rate.to_le_bytes());
    fmt.extend_from_slice(&24000u32.to_le_bytes()); // nAvgBytesPerSec
    fmt.extend_from_slice(&block_align.to_le_bytes());
    fmt.extend_from_slice(&16u16.to_le_bytes()); // wBitsPerSample
    fmt.extend_from_slice(&0u16.to_le_bytes()); // cbSize
    fmt
}

fn dpds_body(dpds: &[u32]) -> Vec<u8> {
    let mut v = Vec::new();
    for n in dpds {
        v.extend_from_slice(&n.to_le_bytes());
    }
    v
}

fn riff(chunks: &[Vec<u8>]) -> Vec<u8> {
    let mut body = b"XWMA".to_vec();
    for c in chunks {
        body.extend_from_slice(c);
    }
    let mut riff = b"RIFF".to_vec();
    riff.extend_from_slice(&(body.len() as u32).to_le_bytes());
    riff.extend_from_slice(&body);
    riff
}

/// Build a minimal valid xWMA file: RIFF/XWMA + fmt + dpds + data.
/// `dpds` is the cumulative decoded-byte index, one entry per packet.
fn synth_xwma(channels: u16, rate: u32, block_align: u16, dpds: &[u32], data: &[u8]) -> Vec<u8> {
    riff(&[
        chunk(b"fmt ", &waveformatex(0x0161, channels, rate, block_align)),
        chunk(b"dpds", &dpds_body(dpds)),
        chunk(b"data", data),
    ])
}

fn counting(n: usize) -> Vec<u8> {
    (0..n).map(|i| i as u8).collect()
}

fn packets(outputs: Vec<Output>) -> Vec<Packet> {
    let mut v = Vec::new();
    for o in outputs {
        if let Output::Buffer(p) = o {
            v.push(p);
        }
    }
    v
}

fn seek_to(time: u64) -> SrcEvent {
    SrcEvent::Seek {
        in_time: true,
        flush: true,
        rate: NORMAL_RATE,
        start: Some(time),
        stop: SeekStop::Unset,
    }
}

fn upstream(offset: u64) -> SrcAction {
    SrcAction::SeekUpstream(offset)
}

fn segment(start: u64) -> Output {
    Output::Event(Event::Segment { start, stop: None, rate: NORMAL_RATE })
}

/// 48000 Hz, two channels, 16 bits: a packet of 4800 decoded bytes plays for
/// 25 ms.
const PACKET_NS: u64 = 25_000_000;

fn quarter_tenths(data: &[u8]) -> Vec<u8> {
    synth_xwma(2, 48000, 4, &[4800, 9600, 14400, 19200], data)
}

#[test]
fn demuxes_to_wma_caps_and_packets() {
    let block_align: u16 = 64;
    let data = vec![0xABu8; 256]; // 4 packets of 64 bytes
    // One dpds entry per packet (cumulative decoded bytes); 4096 decoded bytes/packet.
    let dpds = [4096u32, 8192, 12288, 16384];
    let xwma = synth_xwma(2, 44100, block_align, &dpds, &data);

    let mut demux = XwmaDemux::default();
    let plan = demux.sink_event(SinkEvent::Segment { in_bytes: true });
    assert!(!plan.forward);
    let outputs = demux.sink_chain(&xwma).unwrap();
    let plan = demux.sink_event(SinkEvent::Eos);
    assert!(plan.forward && plan.before.is_empty() && plan.after.is_empty());

    // Assert caps.
    let mut caps: Option<WmaCaps> = None;
    let mut total_bytes: usize = 0;
    let mut buffer_count: usize = 0;
    for out in &outputs {
        match out {
            Output::Event(Event::WmaCaps(c)) => caps = Some(*c),
            Output::Event(_) => {}
            Output::Buffer(p) => {
                buffer_count += 1;
                total_bytes += p.data.len();
            }
        }
    }
    let caps = caps.expect("no caps negotiated");
    assert_eq!(WMA_CAPS, "audio/x-wma");
    assert_eq!(caps.wmaversion, 2);
    assert_eq!(caps.rate, 44100);
    assert_eq!(caps.channels, 2);
    assert_eq!(caps.block_align, block_align as i32);
    assert_eq!(&caps.codec_data, &[0x00, 0x00, 0x00, 0x00, 0x1f, 0x00]);

    // Assert all data bytes were forwarded as packets.
    assert_eq!(total_bytes, data.len());
    assert_eq!(buffer_count, 4); // 256 / 64

    // Assert the duration query is answered from the dpds index. The last dpds
    // entry is 16384 decoded bytes => 16384 / (2ch * 2 bytes) = 4096 frames =>
    // 4096 / 44100 s.
    let dur = match demux.src_query(Query::Duration { in_time: true }) {
        Answer::Duration(t) => t,
        other => panic!("unexpected duration result: {other:?}"),
    };
    let expected = 4096u64 * 1_000_000_000 / 44100;
    assert_eq!(dur, expected);

    // The src pad should report itself seekable in TIME now that dpds is known.
    assert_eq!(
        demux.src_query(Query::Seeking { in_time: true }),
        Answer::Seekable { end: expected },
        "stream should be seekable in TIME"
    );
}

#[test]
fn stamps_and_orders_outputs() {
    let data = counting(14);
    let mut demux = XwmaDemux::default();
    let outputs = demux.sink_chain(&quarter_tenths(&data)).unwrap();
    let caps = WmaCaps {
        wmaversion: 2,
        rate: 48000,
        channels: 2,
        block_align: 4,
        bitrate: 192000,
        depth: 16,
        codec_data: [0, 0, 0, 0, 0x1f, 0],
    };
    assert_eq!(
        outputs,
        vec![
            Output::Event(Event::StreamStart),
            Output::Event(Event::WmaCaps(caps)),
            segment(0),
            Output::Buffer(Packet { data: vec![0, 1, 2, 3], pts: Some(0) }),
            Output::Buffer(Packet { data: vec![4, 5, 6, 7], pts: Some(PACKET_NS) }),
            Output::Buffer(Packet { data: vec![8, 9, 10, 11], pts: Some(2 * PACKET_NS) }),
            Output::Buffer(Packet { data: vec![12, 13], pts: Some(3 * PACKET_NS) }),
        ]
    );
    assert_eq!(demux.compute_duration(), Some(4 * PACKET_NS));
}

#[test]
fn any_split_gives_the_same_outputs() {
    let file = quarter_tenths(&counting(15));
    let whole = XwmaDemux::default().sink_chain(&file).unwrap();
    for size in 1..file.len() {
        let mut demux = XwmaDemux::default();
        let mut out = Vec::new();
        for piece in file.chunks(size) {
            out.append(&mut demux.sink_chain(piece).unwrap());
        }
        assert_eq!(out, whole);
        assert_eq!(demux.compute_duration(), Some(4 * PACKET_NS));
    }
}

#[test]
fn packets_without_an_index_have_no_time_but_the_first() {
    let file = riff(&[
        chunk(b"fmt ", &waveformatex(0x0161, 2, 48000, 4)),
        chunk(b"data", &counting(8)),
    ]);
    let mut demux = XwmaDemux::default();
    let out = packets(demux.sink_chain(&file).unwrap());
    assert_eq!(out[0].pts, Some(0));
    assert_eq!(out[1].pts, None);
    assert_eq!(demux.compute_duration(), None);
    assert_eq!(demux.src_query(Query::Duration { in_time: true }), Answer::Refuse);
    assert_eq!(demux.src_query(Query::Seeking { in_time: true }), Answer::Default);
    assert_eq!(demux.src_event(seek_to(0)), SrcAction::Default);
}

#[test]
fn index_may_follow_the_data() {
    let file = riff(&[
        chunk(b"fmt ", &waveformatex(0x0161, 2, 48000, 4)),
        chunk(b"data", &counting(7)),
        chunk(b"dpds", &dpds_body(&[4800, 9600])),
    ]);
    let mut demux = XwmaDemux::default();
    let out = packets(demux.sink_chain(&file).unwrap());
    assert_eq!(out.len(), 2);
    assert_eq!(out[1].data, vec![4, 5, 6]);
    assert_eq!(demux.compute_duration(), Some(2 * PACKET_NS));
}

#[test]
fn unknown_chunks_are_skipped() {
    let file = riff(&[
        chunk(b"LIST", b"odd"),
        chunk(b"fmt ", &waveformatex(0x0161, 2, 48000, 4)),
        chunk(b"JUNK", b""),
        chunk(b"dpds", b"\x01\x02\x03"),
        chunk(b"data", b""),
        chunk(b"data", &counting(4)),
    ]);
    let mut demux = XwmaDemux::default();
    let out = demux.sink_chain(&file).unwrap();
    assert_eq!(out.len(), 4);
    assert_eq!(packets(out), vec![Packet { data: counting(4), pts: Some(0) }]);
    assert_eq!(demux.compute_duration(), None);
}

#[test]
fn total_is_the_last_four_bytes_of_the_index() {
    let mut body = dpds_body(&[4800]);
    body.extend_from_slice(&[0, 0]);
    // Last four bytes: 0, 0 of the first entry and then 0, 0.
    let file = riff(&[
        chunk(b"fmt ", &waveformatex(0x0161, 2, 48000, 4)),
        chunk(b"dpds", &body),
    ]);
    let mut demux = XwmaDemux::default();
    demux.sink_chain(&file).unwrap();
    assert_eq!(demux.compute_duration(), Some(0));
}

#[test]
fn any_format_tag_is_accepted() {
    let file = riff(&[
        chunk(b"fmt ", &waveformatex(0x0162, 1, 44100, 4)),
        chunk(b"data", &counting(4)),
    ]);
    let mut demux = XwmaDemux::default();
    assert_eq!(demux.unexpected_tag(), None);
    assert_eq!(packets(demux.sink_chain(&file).unwrap()).len(), 1);
    assert_eq!(demux.unexpected_tag(), Some(0x0162));
    assert_eq!(demux.stream_format().map(|f| f.rate), Some(44100));
    // The tag plays no part in what comes out.
    let same = riff(&[
        chunk(b"fmt ", &waveformatex(0x0161, 1, 44100, 4)),
        chunk(b"data", &counting(4)),
    ]);
    let mut usual = XwmaDemux::default();
    assert_eq!(usual.sink_chain(&same), XwmaDemux::default().sink_chain(&file));
    assert_eq!(usual.unexpected_tag(), None);
}

#[test]
fn zero_block_align_gives_single_bytes() {
    let mut demux = XwmaDemux::default();
    let out = packets(demux.sink_chain(&synth_xwma(2, 48000, 0, &[4], b"ab")).unwrap());
    assert_eq!(out.len(), 2);
    assert_eq!(out[0].data, b"a");
    assert_eq!(out[1].data, b"b");
}

#[test]
fn refuses_other_riff_files() {
    let mut demux = XwmaDemux::default();
    assert_eq!(demux.sink_chain(b"RIFF\0\0\0\0WAV"), Ok(vec![]));
    assert_eq!(demux.sink_chain(b"E"), Err(DemuxError::NotXwma));
    // The header stays where it is.
    assert_eq!(demux.sink_chain(b""), Err(DemuxError::NotXwma));
    assert_eq!(DemuxError::NotXwma.message(), "Not a valid xWMA (RIFF/XWMA) stream");
}

#[test]
fn refuses_data_before_fmt() {
    let mut demux = XwmaDemux::default();
    let file = riff(&[chunk(b"data", b"")]);
    assert_eq!(demux.sink_chain(&file), Err(DemuxError::DataBeforeFmt));
    // The header of the chunk is gone; a valid chunk may follow.
    let mut rest = chunk(b"fmt ", &waveformatex(0x0161, 2, 48000, 4));
    rest.extend_from_slice(&chunk(b"data", &counting(4)));
    assert_eq!(packets(demux.sink_chain(&rest).unwrap()).len(), 1);
    assert_eq!(
        DemuxError::DataBeforeFmt.message(),
        "Found data chunk before a valid fmt chunk"
    );
}

#[test]
fn refuses_a_short_fmt() {
    let mut demux = XwmaDemux::default();
    let file = riff(&[chunk(b"fmt ", &[0u8; 15])]);
    assert_eq!(demux.sink_chain(&file), Err(DemuxError::FmtTooSmall));
    assert_eq!(demux.sink_chain(b""), Err(DemuxError::FmtTooSmall));
    assert_eq!(
        DemuxError::FmtTooSmall.message(),
        "fmt chunk too small to be WAVEFORMATEX"
    );
    let file = riff(&[chunk(b"fmt ", &[0u8; 16])]);
    assert_eq!(XwmaDemux::default().sink_chain(&file), Ok(vec![]));
}

#[test]
fn end_of_input_flushes_a_partial_packet() {
    let file = quarter_tenths(&counting(16));
    let cut = file.len() - 16 + 6;
    let mut demux = XwmaDemux::default();
    let out = packets(demux.sink_chain(&file[..cut]).unwrap());
    assert_eq!(out.len(), 1);
    let plan = demux.sink_event(SinkEvent::Eos);
    assert!(plan.forward);
    assert_eq!(packets(plan.before), vec![Packet { data: vec![4, 5], pts: Some(PACKET_NS) }]);
    assert!(plan.after.is_empty());
    assert!(demux.sink_event(SinkEvent::Eos).before.is_empty());
}

#[test]
fn end_of_input_may_flush_the_first_packet() {
    let file = quarter_tenths(&counting(16));
    let cut = file.len() - 16 + 3;
    let mut demux = XwmaDemux::default();
    assert_eq!(packets(demux.sink_chain(&file[..cut]).unwrap()).len(), 0);
    let plan = demux.sink_event(SinkEvent::Eos);
    assert_eq!(packets(plan.before), vec![Packet { data: vec![0, 1, 2], pts: Some(0) }]);
}

#[test]
fn announces_the_duration_once() {
    let file = quarter_tenths(&counting(16));
    let mut demux = XwmaDemux::default();
    demux.sink_chain(&file[..20]).unwrap();
    assert!(!demux.announce_duration());
    demux.sink_chain(&file[20..]).unwrap();
    assert!(demux.announce_duration());
    assert!(!demux.announce_duration());
    demux.sink_chain(b"").unwrap();
    assert!(!demux.announce_duration());
}

#[test]
fn drops_upstream_framing() {
    let mut demux = XwmaDemux::default();
    for event in [
        SinkEvent::Caps,
        SinkEvent::Segment { in_bytes: true },
        SinkEvent::StreamStart,
    ] {
        let plan = demux.sink_event(event);
        assert!(!plan.forward && plan.before.is_empty() && plan.after.is_empty());
    }
    let plan = demux.sink_event(SinkEvent::Other);
    assert!(plan.forward && plan.before.is_empty() && plan.after.is_empty());
}

#[test]
fn starts_anew_on_flush_and_on_ready_to_paused() {
    let file = quarter_tenths(&counting(16));
    let whole = XwmaDemux::default().sink_chain(&file).unwrap();
    let mut demux = XwmaDemux::default();
    demux.sink_chain(&file[..file.len() - 5]).unwrap();
    let plan = demux.sink_event(SinkEvent::FlushStop);
    assert!(plan.forward && plan.before.is_empty() && plan.after.is_empty());
    assert_eq!(demux.compute_duration(), None);
    assert_eq!(demux.sink_chain(&file).unwrap(), whole);
    demux.change_state(StateChange::Other);
    assert_eq!(demux.compute_duration(), Some(4 * PACKET_NS));
    demux.change_state(StateChange::ReadyToPaused);
    assert_eq!(demux.compute_duration(), None);
    assert_eq!(demux.sink_chain(&file).unwrap(), whole);
}

#[test]
fn other_formats_are_not_answered() {
    let mut demux = XwmaDemux::default();
    demux.sink_chain(&quarter_tenths(&counting(16))).unwrap();
    assert_eq!(demux.src_query(Query::Duration { in_time: false }), Answer::Refuse);
    assert_eq!(demux.src_query(Query::Seeking { in_time: false }), Answer::Default);
    assert_eq!(demux.src_query(Query::Other), Answer::Default);
}

#[test]
fn seeks_to_the_packet_that_plays() {
    let file = quarter_tenths(&counting(14));
    let first = (file.len() - 14) as u64;
    let mut demux = XwmaDemux::default();
    let all = packets(demux.sink_chain(&file).unwrap());
    let cases = [
        (0u64, 0usize),
        (PACKET_NS - 1, 0),
        (PACKET_NS, 1),
        (PACKET_NS + 1, 1),
        (2 * PACKET_NS, 2),
        (3 * PACKET_NS, 3),
        (4 * PACKET_NS, 3),
        (u64::MAX, 3),
    ];
    for (time, k) in cases {
        let offset = first + 4 * k as u64;
        assert_eq!(demux.src_event(seek_to(time)), upstream(offset));
        let plan = demux.sink_event(SinkEvent::FlushStop);
        assert!(plan.forward && plan.before.is_empty());
        assert_eq!(plan.after, vec![segment(time)]);
        let again = packets(demux.sink_chain(&file[offset as usize..]).unwrap());
        assert_eq!(again.len(), all.len() - k);
        for (a, b) in again.iter().zip(&all[k..]) {
            assert_eq!(a, b);
        }
        assert_eq!(demux.compute_duration(), Some(4 * PACKET_NS));
    }
}

#[test]
fn seeks_beyond_the_index_go_to_the_last_known_packet() {
    let file = synth_xwma(2, 48000, 4, &[4800], &counting(16));
    let first = (file.len() - 16) as u64;
    let mut demux = XwmaDemux::default();
    demux.sink_chain(&file).unwrap();
    assert_eq!(demux.src_event(seek_to(10 * PACKET_NS)), upstream(first + 4));
}

#[test]
fn leaves_to_the_pad_what_it_cannot_seek() {
    let file = quarter_tenths(&counting(16));
    let seek = |in_time, flush, rate: f64, start, stop| SrcEvent::Seek {
        in_time,
        flush,
        rate: rate.to_bits(),
        start,
        stop,
    };
    let mut demux = XwmaDemux::default();
    assert_eq!(demux.src_event(seek_to(0)), SrcAction::Default);
    demux.sink_chain(&file).unwrap();
    let cases = [
        seek(true, false, 1.0, Some(0), SeekStop::Unset),
        seek(true, true, -1.0, Some(0), SeekStop::Unset),
        seek(true, true, 0.0, Some(0), SeekStop::Unset),
        seek(true, true, 1.0, None, SeekStop::Unset),
        seek(true, true, 1.0, Some(5), SeekStop::At(4)),
        seek(true, true, 1.0, Some(0), SeekStop::Other),
        seek(false, true, 1.0, Some(0), SeekStop::Unset),
        seek(true, true, f64::NAN, Some(0), SeekStop::Unset),
        SrcEvent::Other,
    ];
    for event in cases {
        assert_eq!(demux.src_event(event), SrcAction::Default);
        // No seek is under way: a flush starts the stream anew.
        assert!(demux.sink_event(SinkEvent::FlushStop).after.is_empty());
        demux.sink_chain(&file).unwrap();
    }
    assert!(matches!(demux.src_event(seek_to(0)), SrcAction::SeekUpstream(_)));
}

#[test]
fn seekable_where_seeks_are_served() {
    let file = quarter_tenths(&counting(16));
    let first = file.len() - 16;
    let asked = Query::Seeking { in_time: true };
    // The index is known, but not where the packets are.
    let mut demux = XwmaDemux::default();
    demux.sink_chain(&file[..first - 1]).unwrap();
    assert_eq!(demux.compute_duration(), Some(4 * PACKET_NS));
    assert_eq!(demux.src_query(asked), Answer::Default);
    assert_eq!(demux.src_event(seek_to(0)), SrcAction::Default);
    demux.sink_chain(&file[first - 1..first]).unwrap();
    assert_eq!(demux.src_query(asked), Answer::Seekable { end: 4 * PACKET_NS });
    assert_eq!(demux.src_event(seek_to(0)), upstream(first as u64));
    // There are no packets.
    let mut empty = XwmaDemux::default();
    empty.sink_chain(&quarter_tenths(b"")).unwrap();
    assert_eq!(empty.compute_duration(), Some(4 * PACKET_NS));
    assert_eq!(empty.src_query(asked), Answer::Default);
    assert_eq!(empty.src_event(seek_to(0)), SrcAction::Default);
}

#[test]
fn an_empty_data_chunk_does_not_stop_seeks() {
    let file = riff(&[
        chunk(b"fmt ", &waveformatex(0x0161, 2, 48000, 4)),
        chunk(b"dpds", &dpds_body(&[4800, 9600])),
        chunk(b"data", b""),
        chunk(b"data", &counting(8)),
    ]);
    let first = (file.len() - 8) as u64;
    let mut demux = XwmaDemux::default();
    let all = packets(demux.sink_chain(&file).unwrap());
    let seekable = Answer::Seekable { end: 2 * PACKET_NS };
    assert_eq!(demux.src_query(Query::Seeking { in_time: true }), seekable);
    assert_eq!(demux.src_event(seek_to(PACKET_NS)), upstream(first + 4));
    demux.sink_event(SinkEvent::FlushStop);
    let again = packets(demux.sink_chain(&file[file.len() - 4..]).unwrap());
    assert_eq!(again, all[1..]);
}

#[test]
fn seeks_are_left_to_an_upstream_that_counts_no_bytes() {
    let file = quarter_tenths(&counting(16));
    let mut demux = XwmaDemux::default();
    demux.sink_event(SinkEvent::Segment { in_bytes: false });
    let asked = Query::Seeking { in_time: true };
    for _ in 0..2 {
        demux.sink_chain(&file).unwrap();
        assert_eq!(demux.compute_duration(), Some(4 * PACKET_NS));
        assert_eq!(demux.src_query(asked), Answer::Default);
        assert_eq!(demux.src_event(seek_to(0)), SrcAction::Default);
        // A flush starts the stream anew, but says nothing of upstream.
        assert!(demux.sink_event(SinkEvent::FlushStop).after.is_empty());
        assert_eq!(demux.compute_duration(), None);
    }
    demux.sink_event(SinkEvent::Segment { in_bytes: true });
    demux.sink_chain(&file).unwrap();
    assert_eq!(demux.src_query(asked), Answer::Seekable { end: 4 * PACKET_NS });
    assert!(matches!(demux.src_event(seek_to(0)), SrcAction::SeekUpstream(_)));
}

#[test]
fn rates_and_stops_go_into_the_segment() {
    let file = quarter_tenths(&counting(16));
    let first = (file.len() - 16) as u64;
    let mut demux = XwmaDemux::default();
    demux.sink_chain(&file).unwrap();
    let seek = |time: u64, rate: f64, stop| SrcEvent::Seek {
        in_time: true,
        flush: true,
        rate: rate.to_bits(),
        start: Some(time),
        stop,
    };
    assert_eq!(NORMAL_RATE, 1.0f64.to_bits());
    let cases = [
        (seek(PACKET_NS, 2.0, SeekStop::Keep), None, 2.0f64),
        (seek(PACKET_NS, 0.5, SeekStop::At(2 * PACKET_NS)), Some(2 * PACKET_NS), 0.5),
        (seek(PACKET_NS, 1.0, SeekStop::Keep), Some(2 * PACKET_NS), 1.0),
        (seek(PACKET_NS, 1.0, SeekStop::Unset), None, 1.0),
        (seek(PACKET_NS, 1.0, SeekStop::Keep), None, 1.0),
    ];
    for (event, stop, rate) in cases {
        assert_eq!(demux.src_event(event), upstream(first + 4));
        let plan = demux.sink_event(SinkEvent::FlushStop);
        let rate = rate.to_bits();
        assert_eq!(
            plan.after,
            vec![Output::Event(Event::Segment { start: PACKET_NS, stop, rate })]
        );
    }
    // A stop that is kept may come before the new start.
    assert_eq!(demux.src_event(seek(0, 1.0, SeekStop::At(PACKET_NS))), upstream(first));
    demux.sink_event(SinkEvent::FlushStop);
    let late = demux.src_event(seek(2 * PACKET_NS, 1.0, SeekStop::Keep));
    assert_eq!(late, SrcAction::Default);
}

#[test]
fn sizes_and_pad_bytes_play_no_part() {
    let data = counting(15);
    let file = quarter_tenths(&data);
    let whole = XwmaDemux::default().sink_chain(&file).unwrap();
    let mut other = file.clone();
    other[4..8].copy_from_slice(&[0xff; 4]);
    let last = other.len() - 1;
    other[last] = 0xff;
    let mut demux = XwmaDemux::default();
    assert_eq!(demux.sink_chain(&other).unwrap(), whole);
    assert_eq!(demux.compute_duration(), Some(4 * PACKET_NS));
    // Nor do unknown chunks, wherever they stand.
    let parts = [
        chunk(b"fmt ", &waveformatex(0x0161, 2, 48000, 4)),
        chunk(b"dpds", &dpds_body(&[4800, 9600, 14400, 19200])),
        chunk(b"data", &data),
    ];
    for place in 0..=parts.len() {
        let mut chunks = parts.to_vec();
        chunks.insert(place, chunk(b"LIST", b"odd"));
        let mut demux = XwmaDemux::default();
        assert_eq!(demux.sink_chain(&riff(&chunks)).unwrap(), whole);
        assert_eq!(demux.compute_duration(), Some(4 * PACKET_NS));
    }
}

#[test]
fn chunks_come_out_in_any_order() {
    let file = riff(&[
        chunk(b"dpds", &dpds_body(&[4800, 9600, 14400])),
        chunk(b"fmt ", &waveformatex(0x0161, 2, 48000, 4)),
        chunk(b"data", &counting(6)),
        chunk(b"JUNK", b"x"),
        chunk(b"data", &counting(3)),
    ]);
    let mut demux = XwmaDemux::default();
    let out = demux.sink_chain(&file).unwrap();
    assert_eq!(out.len(), 6);
    assert_eq!(out[2], segment(0));
    assert_eq!(
        packets(out),
        vec![
            Packet { data: vec![0, 1, 2, 3], pts: Some(0) },
            Packet { data: vec![4, 5], pts: Some(PACKET_NS) },
            Packet { data: vec![0, 1, 2], pts: Some(2 * PACKET_NS) },
        ]
    );
    assert_eq!(demux.compute_duration(), Some(3 * PACKET_NS));
}

#[test]
fn what_is_held_is_what_is_left_after_whole_packets() {
    let file = quarter_tenths(&counting(16));
    for n in 0..16usize {
        let mut demux = XwmaDemux::default();
        let out = packets(demux.sink_chain(&file[..file.len() - 16 + n]).unwrap());
        assert_eq!(out.len(), n / 4);
        let last = packets(demux.sink_event(SinkEvent::Eos).before);
        let held: usize = last.iter().map(|p| p.data.len()).sum();
        assert_eq!(held, n % 4);
    }
}

#[test]
fn a_refused_seek_is_forgotten() {
    let file = quarter_tenths(&counting(16));
    let mut demux = XwmaDemux::default();
    demux.sink_chain(&file).unwrap();
    assert!(matches!(demux.src_event(seek_to(PACKET_NS)), SrcAction::SeekUpstream(_)));
    demux.seek_refused();
    assert!(demux.sink_event(SinkEvent::FlushStop).after.is_empty());
    assert_eq!(demux.compute_duration(), None);
}

#[test]
fn time_and_caps_formulas() {
    let fmt = Fmt {
        format_tag: 0x0161,
        channels: 3,
        rate: 7,
        avg_bytes_per_sec: 0,
        block_align: 1,
        bits_per_sample: 4,
    };
    // 10 bytes are three whole frames of three one-byte samples.
    assert_eq!(fmt.time_of(10), Some(3_000_000_000 / 7));
    let fmt = Fmt { bits_per_sample: 31, ..fmt };
    // Samples of 31 bits count as three bytes: 27 bytes are three frames.
    assert_eq!(fmt.time_of(27), Some(3_000_000_000 / 7));
    assert_eq!(Fmt { rate: 0, ..fmt }.time_of(27), None);
    assert_eq!(Fmt { channels: 0, ..fmt }.time_of(27), None);
    let longest = Fmt { channels: 1, rate: 1, bits_per_sample: 8, ..fmt };
    assert_eq!(longest.time_of(u32::MAX), Some(4_294_967_295_000_000_000));
    let caps = Fmt { rate: 0xffff_fffe, avg_bytes_per_sec: 0x3000_0001, ..fmt }.wma_caps();
    assert_eq!(caps.rate, -2);
    assert_eq!(caps.bitrate, -0x7fff_fff8);
    assert_eq!(caps.wmaversion, 2);
    assert_eq!(caps.depth, 31);
}

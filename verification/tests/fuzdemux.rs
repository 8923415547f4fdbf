use gstxwm::error::DemuxError;
use gstxwm::events::{SinkEvent, StateChange};
use gstxwm::fuzdemux::FuzDemux;
use gstxwm::output::{Event, Output, Packet, NORMAL_RATE};
use gstxwm::xwmademux::XwmaDemux;

fn fuz(version: u8, lip: &[u8], audio: &[u8]) -> Vec<u8> {
    let mut v = b"FUZE".to_vec();
    v.push(version);
    v.extend_from_slice(&(lip.len() as u32).to_le_bytes());
    v.extend_from_slice(lip);
    v.extend_from_slice(audio);
    v
}

fn segment() -> Output {
    Output::Event(Event::Segment { start: 0, stop: None, rate: NORMAL_RATE })
}

fn start() -> Vec<Output> {
    vec![
        Output::Event(Event::StreamStart),
        Output::Event(Event::XwmaCaps),
        segment(),
    ]
}

fn buffer(data: &[u8]) -> Output {
    Output::Buffer(Packet { data: data.to_vec(), pts: None })
}

fn payload(outputs: &[Output]) -> Vec<u8> {
    let mut v = Vec::new();
    for o in outputs {
        if let Output::Buffer(p) = o {
            v.extend_from_slice(&p.data);
        }
    }
    v
}

#[test]
fn strips_header_and_lip() {
    let mut demux = FuzDemux::default();
    let mut expected = start();
    expected.push(buffer(b"RIFFaudio"));
    assert_eq!(demux.sink_chain(&fuz(1, b"lipdata", b"RIFFaudio")), Ok(expected));
    assert_eq!(demux.sink_chain(b"more"), Ok(vec![buffer(b"more")]));
    assert_eq!(demux.sink_chain(b""), Ok(vec![]));
}

#[test]
fn starts_without_lip_and_audio() {
    let mut demux = FuzDemux::default();
    assert_eq!(demux.sink_chain(&fuz(1, b"", b"")), Ok(start()));
    assert_eq!(demux.sink_chain(b"x"), Ok(vec![buffer(b"x")]));
}

#[test]
fn accepts_any_version() {
    for version in [0u8, 2, 255] {
        let mut demux = FuzDemux::default();
        let out = demux.sink_chain(&fuz(version, b"l", b"audio")).unwrap();
        assert_eq!(payload(&out), b"audio");
        assert_eq!(demux.unexpected_version(), Some(version));
        let header = demux.file_header().unwrap();
        assert_eq!((header.version, header.lip_size), (version, 1));
    }
    let mut demux = FuzDemux::default();
    demux.sink_chain(&fuz(1, b"", b"")[..8]).unwrap();
    assert!(demux.file_header().is_none());
    demux.sink_chain(b"\0").unwrap();
    assert!(demux.file_header().is_some());
    assert_eq!(demux.unexpected_version(), None);
}

#[test]
fn any_split_gives_the_same_bytes() {
    let file = fuz(1, b"lipdata", b"RIFFaudio");
    for size in 1..file.len() {
        let mut demux = FuzDemux::default();
        let mut out = Vec::new();
        for piece in file.chunks(size) {
            out.append(&mut demux.sink_chain(piece).unwrap());
        }
        assert_eq!(payload(&out), b"RIFFaudio");
        assert_eq!(out.iter().filter(|o| matches!(o, Output::Event(_))).count(), 3);
        assert_eq!(out[..3], start());
    }
}

#[test]
fn waits_for_the_header() {
    let mut demux = FuzDemux::default();
    assert_eq!(demux.sink_chain(b"NOPE\x01\0\0\0"), Ok(vec![]));
    assert_eq!(demux.sink_chain(b"\0"), Err(DemuxError::NotFuz));
    assert_eq!(demux.sink_chain(b""), Err(DemuxError::NotFuz));
}

#[test]
fn not_fuz_has_a_message() {
    assert_eq!(DemuxError::NotFuz.message(), "Not a FUZ stream (missing FUZE magic)");
}

#[test]
fn fuz_drops_upstream_framing() {
    let demux = FuzDemux::default();
    for event in [
        SinkEvent::Caps,
        SinkEvent::Segment { in_bytes: true },
        SinkEvent::StreamStart,
    ] {
        assert!(!demux.sink_event(event).forward);
    }
    for event in [SinkEvent::Eos, SinkEvent::FlushStop, SinkEvent::Other] {
        let plan = demux.sink_event(event);
        assert!(plan.forward);
        assert!(plan.before.is_empty() && plan.after.is_empty());
    }
}

/// 48000 Hz, two channels, 16 bits, four bytes a packet; a packet of 4800
/// decoded bytes plays for 25 ms.
fn small_xwma() -> Vec<u8> {
    let mut v = b"RIFF\0\0\0\0XWMAfmt \x10\0\0\0".to_vec();
    v.extend_from_slice(&[0x61, 1, 2, 0, 0x80, 0xbb, 0, 0, 0xc0, 0x5d, 0, 0, 4, 0, 16, 0]);
    v.extend_from_slice(b"dpds\x08\0\0\0");
    v.extend_from_slice(&4800u32.to_le_bytes());
    v.extend_from_slice(&9600u32.to_le_bytes());
    v.extend_from_slice(b"data\x07\0\0\0abcdefg\0");
    v
}

#[test]
fn fuz_file_gives_what_its_xwma_file_gives() {
    let audio = small_xwma();
    let file = fuz(1, b"lipdata", &audio);
    let alone = XwmaDemux::default().sink_chain(&audio).unwrap();
    assert_eq!(payload(&alone), b"abcdefg");
    for size in 1..=file.len() {
        let mut outer = FuzDemux::default();
        let mut inner = XwmaDemux::default();
        let mut out = Vec::new();
        for piece in file.chunks(size) {
            for o in outer.sink_chain(piece).unwrap() {
                if let Output::Buffer(p) = o {
                    out.append(&mut inner.sink_chain(&p.data).unwrap());
                }
            }
        }
        assert_eq!(out, alone);
        assert_eq!(inner.compute_duration(), Some(50_000_000));
    }
}

#[test]
fn fuz_starts_anew_on_ready_to_paused() {
    let mut demux = FuzDemux::default();
    demux.sink_chain(&fuz(1, b"", b"a")).unwrap();
    demux.change_state(StateChange::Other);
    assert_eq!(demux.sink_chain(b"b"), Ok(vec![buffer(b"b")]));
    demux.change_state(StateChange::ReadyToPaused);
    let mut expected = start();
    expected.push(buffer(b"c"));
    assert_eq!(demux.sink_chain(&fuz(1, b"", b"c")), Ok(expected));
}

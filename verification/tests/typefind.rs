use gstxwm::typefind::{type_find_fuz, type_find_xwma};

#[test]
fn finds_xwma() {
    assert_eq!(type_find_xwma(Some(b"RIFF\x01\x02\x03\x04XWMA")), Some("audio/x-xwma"));
    assert_eq!(type_find_xwma(Some(b"RIFF\x01\x02\x03\x04XWMAfmt ")), Some("audio/x-xwma"));
}

#[test]
fn finds_no_xwma() {
    assert_eq!(type_find_xwma(None), None);
    assert_eq!(type_find_xwma(Some(b"RIFF\x01\x02\x03\x04WAVE")), None);
    assert_eq!(type_find_xwma(Some(b"RIFX\x01\x02\x03\x04XWMA")), None);
    assert_eq!(type_find_xwma(Some(b"RIFF\x01\x02\x03\x04XWM")), None);
}

#[test]
fn finds_fuz() {
    assert_eq!(type_find_fuz(Some(b"FUZE")), Some("audio/x-fuz"));
    assert_eq!(type_find_fuz(Some(b"FUZE\x01")), Some("audio/x-fuz"));
}

#[test]
fn finds_no_fuz() {
    assert_eq!(type_find_fuz(None), None);
    assert_eq!(type_find_fuz(Some(b"FUZ ")), None);
    assert_eq!(type_find_fuz(Some(b"FUZ")), None);
}

use bytes::BytesMut;
use signal_cli_client::codec::{StreamCodec, NEWLINE};
use signal_cli_client::error::RpcError;

#[test]
fn stream_incoming_uses_newline_both_ways() {
    let c = StreamCodec::stream_incoming();
    assert_eq!(c.incoming_separator, b'\n');
    assert_eq!(c.outgoing_separator, b'\n');
    assert_eq!(NEWLINE, b'\n');
}

#[test]
fn new_keeps_both_separators() {
    let c = StreamCodec::new(b';', b'|');
    assert_eq!(c.incoming_separator, b';');
    assert_eq!(c.outgoing_separator, b'|');
}

#[test]
fn decode_without_separator_waits_and_keeps_buffer() {
    let c = StreamCodec::stream_incoming();
    let mut buf = BytesMut::from(&b"{\"id\":1"[..]);
    assert_eq!(c.decode(&mut buf), Ok(None));
    assert_eq!(&buf[..], b"{\"id\":1");
}

#[test]
fn decode_empty_buffer_gives_nothing() {
    let c = StreamCodec::stream_incoming();
    let mut buf = BytesMut::new();
    assert_eq!(c.decode(&mut buf), Ok(None));
    assert!(buf.is_empty());
}

#[test]
fn decode_cuts_at_first_separator_only() {
    let c = StreamCodec::stream_incoming();
    let mut buf = BytesMut::from(&b"abc\ndef\nxy"[..]);
    assert_eq!(c.decode(&mut buf), Ok(Some("abc".to_string())));
    assert_eq!(&buf[..], b"def\nxy");
    assert_eq!(c.decode(&mut buf), Ok(Some("def".to_string())));
    assert_eq!(&buf[..], b"xy");
    assert_eq!(c.decode(&mut buf), Ok(None));
    assert_eq!(&buf[..], b"xy");
}

#[test]
fn decode_splits_every_frame_and_none_holds_a_separator() {
    let c = StreamCodec::stream_incoming();
    let mut buf = BytesMut::from(&b"a\n\nbc\n{}\n"[..]);
    let mut frames = Vec::new();
    while let Some(f) = c.decode(&mut buf).unwrap() {
        assert!(!f.contains('\n'));
        frames.push(f);
    }
    assert_eq!(frames, vec!["a", "", "bc", "{}"]);
    assert!(buf.is_empty());
}

#[test]
fn decode_continues_when_bytes_arrive_later() {
    let c = StreamCodec::stream_incoming();
    let mut buf = BytesMut::from(&b"hel"[..]);
    assert_eq!(c.decode(&mut buf), Ok(None));
    buf.extend_from_slice(b"lo\n");
    assert_eq!(c.decode(&mut buf), Ok(Some("hello".to_string())));
    assert!(buf.is_empty());
}

#[test]
fn decode_custom_incoming_separator() {
    let c = StreamCodec::new(b';', b'\n');
    let mut buf = BytesMut::from(&b"x\ny;z"[..]);
    assert_eq!(c.decode(&mut buf), Ok(Some("x\ny".to_string())));
    assert_eq!(&buf[..], b"z");
}

#[test]
fn decode_invalid_utf8_is_a_framing_error_and_consumes_frame() {
    let c = StreamCodec::stream_incoming();
    let mut buf = BytesMut::from(&[0x66u8, 0xff, 0xfe, b'\n', b'o', b'k', b'\n'][..]);
    assert_eq!(c.decode(&mut buf), Err(RpcError::Framing));
    assert_eq!(&buf[..], b"ok\n");
    assert_eq!(c.decode(&mut buf), Ok(Some("ok".to_string())));
}

#[test]
fn decode_multibyte_text() {
    let c = StreamCodec::stream_incoming();
    let mut buf = BytesMut::from("héllo ✓\n".as_bytes());
    assert_eq!(c.decode(&mut buf), Ok(Some("héllo ✓".to_string())));
}

#[test]
fn encode_appends_outgoing_separator() {
    let c = StreamCodec::stream_incoming();
    let mut buf = BytesMut::new();
    c.encode("{\"id\":0}".to_string(), &mut buf);
    assert_eq!(&buf[..], b"{\"id\":0}\n");
    c.encode(String::new(), &mut buf);
    assert_eq!(&buf[..], b"{\"id\":0}\n\n");
}

#[test]
fn encode_custom_outgoing_separator() {
    let c = StreamCodec::new(b'\n', b'|');
    let mut buf = BytesMut::from(&b"ab"[..]);
    c.encode("cd".to_string(), &mut buf);
    assert_eq!(&buf[..], b"abcd|");
}

#[test]
fn decode_then_encode_round_trips() {
    let c = StreamCodec::stream_incoming();
    for original in [&b"{\"x\":1}"[..], "ünïcode".as_bytes(), b""] {
        let mut buf = BytesMut::from(original);
        buf.extend_from_slice(b"\n");
        let text = c.decode(&mut buf).unwrap().unwrap();
        let mut out = BytesMut::new();
        c.encode(text, &mut out);
        let mut expected = original.to_vec();
        expected.push(b'\n');
        assert_eq!(&out[..], &expected[..]);
    }
}

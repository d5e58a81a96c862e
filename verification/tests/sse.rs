use milli_http::error::Error;
use milli_http::http::sse::{format_event, format_retry};
use milli_http::http::StatusCode;

#[test]
fn named_event() {
    let mut buf = [0u8; 64];
    let n = format_event(Some("volume"), "0.5", &mut buf).unwrap();
    assert_eq!(&buf[..n], b"event: volume\ndata: 0.5\n\n");
}

#[test]
fn unnamed_event() {
    let mut buf = [0u8; 64];
    let n = format_event(None, "hello", &mut buf).unwrap();
    assert_eq!(&buf[..n], b"data: hello\n\n");
}

#[test]
fn multiline_data_splits_into_data_fields() {
    let mut buf = [0u8; 64];
    let n = format_event(None, "a\nb", &mut buf).unwrap();
    assert_eq!(&buf[..n], b"data: a\ndata: b\n\n");
}

#[test]
fn empty_data_still_emits_field() {
    let mut buf = [0u8; 64];
    let n = format_event(Some("ping"), "", &mut buf).unwrap();
    assert_eq!(&buf[..n], b"event: ping\ndata: \n\n");
}

#[test]
fn buffer_too_small_is_clean_error() {
    let mut buf = [0u8; 8];
    assert!(matches!(
        format_event(Some("volume"), "0.5", &mut buf),
        Err(Error::BufferTooSmall { .. })
    ));
}

#[test]
fn retry_frame() {
    let mut buf = [0u8; 32];
    let n = format_retry(3000, &mut buf).unwrap();
    assert_eq!(&buf[..n], b"retry: 3000\n\n");
    let n = format_retry(0, &mut buf).unwrap();
    assert_eq!(&buf[..n], b"retry: 0\n\n");
}

/// Reads the first event out of a text, as a client does.
fn read_event(text: &[u8]) -> Option<(String, String)> {
    let text = String::from_utf8(text.to_vec()).unwrap();
    let mut event = String::new();
    let mut data = String::new();
    for line in text.split('\n') {
        if line.is_empty() {
            data.pop()?;
            return Some((event, data));
        } else if let Some(v) = line.strip_prefix("data: ") {
            data.push_str(v);
            data.push('\n');
        } else if let Some(v) = line.strip_prefix("event: ") {
            event = v.to_string();
        }
    }
    None
}

#[test]
fn text_comes_back_as_it_was() {
    for data in ["", "x", "a\nb", "\n", "\n\n", "line one\n\nline three\n", "\u{e9}\n\u{1f600}"] {
        for name in [None, Some("volume"), Some("")] {
            let mut buf = [0u8; 256];
            let n = format_event(name, data, &mut buf).unwrap();
            let (event, text) = read_event(&buf[..n]).unwrap();
            assert_eq!(event, name.unwrap_or(""));
            assert_eq!(text, data);
        }
    }
}

#[test]
fn what_is_missing_is_said_and_the_rest_is_left_alone() {
    let mut buf = [0xeeu8; 10];
    assert_eq!(
        format_event(None, "0.5", &mut buf),
        Err(Error::BufferTooSmall { needed: 11 })
    );
    assert_eq!(&buf, b"data: 0.5\n");
    let mut buf = [0xeeu8; 9];
    assert_eq!(
        format_event(None, "0.5", &mut buf),
        Err(Error::BufferTooSmall { needed: 10 })
    );
    assert_eq!(&buf, b"data: 0.5");
    let mut buf = [0xeeu8; 3];
    assert_eq!(
        format_event(Some("n"), "0.5", &mut buf),
        Err(Error::BufferTooSmall { needed: 7 })
    );
    assert_eq!(buf, [0xee; 3]);
    let mut buf = [0xeeu8; 13];
    assert_eq!(format_event(None, "0.5", &mut buf), Ok(11));
    assert_eq!(&buf, b"data: 0.5\n\n\xee\xee");
}

#[test]
fn retry_of_all_lengths() {
    for (ms, text) in [
        (7u32, "retry: 7\n\n"),
        (10, "retry: 10\n\n"),
        (4_294_967_295, "retry: 4294967295\n\n"),
    ] {
        let mut buf = [0u8; 32];
        let n = format_retry(ms, &mut buf).unwrap();
        assert_eq!(&buf[..n], text.as_bytes());
    }
    let mut buf = [0u8; 10];
    assert_eq!(
        format_retry(30, &mut buf),
        Err(Error::BufferTooSmall { needed: 11 })
    );
}

#[test]
fn status_is_three_digits() {
    assert_eq!(&StatusCode(200).to_bytes(), b"200");
    assert_eq!(&StatusCode(7).to_bytes(), b"007");
    assert_eq!(&StatusCode(999).to_bytes(), b"999");
}

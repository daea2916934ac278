use pngstreamenc::header::{
    read_image_header, read_token, HeaderErrorKind, HeaderProgress, HeaderReader, ImageHeader,
    TokenRead, TokenReader,
};

/// Feeds `text` in buffers of `size` bytes, then the end of the stream.
fn read(text: &[u8], size: usize) -> (Result<ImageHeader, (HeaderErrorKind, String)>, usize) {
    let mut reader = HeaderReader::new();
    let mut pos = 0;
    loop {
        let end = std::cmp::min(pos + size, text.len());
        let r = read_image_header(&mut reader, &text[pos..end]);
        pos += r.used;
        match r.progress {
            HeaderProgress::Next(_) => {}
            HeaderProgress::Done(h) => return (Ok(h), pos),
            HeaderProgress::Failed(e) => return (Err((e.kind, e.message)), pos),
        }
    }
}

fn error(text: &str) -> (HeaderErrorKind, String) {
    let (whole, _) = read(text.as_bytes(), 1000);
    for size in 1..9 {
        assert_eq!(read(text.as_bytes(), size).0, whole);
    }
    match whole {
        Err(e) => e,
        Ok(_) => panic!("no error"),
    }
}

fn invalid(text: &str) -> String {
    let (kind, message) = error(text);
    assert_eq!(kind, HeaderErrorKind::InvalidData);
    message
}

fn header(width: u32, height: u32, bit_depth: u8, color_type: u8) -> ImageHeader {
    ImageHeader { width, height, bit_depth, color_type }
}

#[test]
fn ppm_header_in_buffers_of_any_size() {
    let text = b"P6\n# made by hand\n640 480\n255\n\x01\x02\x03";
    for size in 1..text.len() + 1 {
        let (r, used) = read(text, size);
        assert_eq!(r, Ok(header(640, 480, 8, 2)));
        assert_eq!(used, text.len() - 3);
    }
}

#[test]
fn ppm_with_wide_samples() {
    assert_eq!(read(b"P6 1 2 256 ", 4).0, Ok(header(1, 2, 16, 2)));
    assert_eq!(read(b"P6 1 2 65535 ", 4).0, Ok(header(1, 2, 16, 2)));
    assert_eq!(read(b"P6 1 2 0 ", 4).0, Ok(header(1, 2, 8, 2)));
}

#[test]
fn ppm_number_may_have_a_plus_and_zeros() {
    assert_eq!(read(b"P6 +007 4294967295 255 ", 3).0, Ok(header(7, 4294967295, 8, 2)));
}

#[test]
fn ppm_ends_with_the_stream() {
    assert_eq!(read(b"P6 3 4 255", 5), (Ok(header(3, 4, 8, 2)), 10));
}

#[test]
fn white_space_of_all_kinds() {
    assert_eq!(read(b"\n\t P6\x0c3\r\n4\t255\n", 2).0, Ok(header(3, 4, 8, 2)));
}

#[test]
fn pixels_start_right_behind_one_white_space() {
    let (r, used) = read(b"P6 3 4 255\n\n\n", 100);
    assert_eq!(r, Ok(header(3, 4, 8, 2)));
    assert_eq!(used, 11);
}

#[test]
fn pam_header_in_buffers_of_any_size() {
    let text = b"P7\nWIDTH 12\nHEIGHT 34\nDEPTH 4\nMAXVAL 255\nTUPLTYPE RGB_ALPHA\nENDHDR\n\xff";
    for size in 1..text.len() + 1 {
        let (r, used) = read(text, size);
        assert_eq!(r, Ok(header(12, 34, 8, 6)));
        assert_eq!(used, text.len() - 1);
    }
}

#[test]
fn pam_color_types() {
    for (depth, color_type) in [(1, 0), (2, 4), (3, 2), (4, 6)] {
        let text = format!("P7 WIDTH 1 HEIGHT 1 DEPTH {} MAXVAL 65535 ENDHDR ", depth);
        assert_eq!(read(text.as_bytes(), 7).0, Ok(header(1, 1, 16, color_type)));
    }
}

#[test]
fn pam_entries_in_any_order_last_one_counts() {
    let text = b"P7 MAXVAL 1 DEPTH 1 HEIGHT 2 SOMETHING WIDTH 9 WIDTH 3 ENDHDR ";
    assert_eq!(read(text, 9).0, Ok(header(3, 2, 8, 0)));
}

#[test]
fn pam_tuple_type_is_read_over() {
    let text = b"P7 TUPLTYPE WIDTH 5 HEIGHT 2 WIDTH 3 DEPTH 1 MAXVAL 1 ENDHDR ";
    assert_eq!(read(text, 9).0, Ok(header(3, 2, 8, 0)));
}

#[test]
fn hash_within_a_token_belongs_to_it() {
    assert_eq!(invalid("P6#x 1 1 255 "), "Expected P6 (PPM) or P7 (PAM) format, got: P6#x");
}

#[test]
fn wrong_magic() {
    assert_eq!(invalid("P5 1 1 255 "), "Expected P6 (PPM) or P7 (PAM) format, got: P5");
    let (r, _) = read(b"\xe9t\xe9 ", 2);
    assert_eq!(
        r,
        Err((
            HeaderErrorKind::InvalidData,
            "Expected P6 (PPM) or P7 (PAM) format, got: \u{e9}t\u{e9}".to_string()
        ))
    );
}

#[test]
fn ppm_numbers_that_are_none() {
    assert_eq!(invalid("P6 x 1 255 "), "Invalid PPM width");
    assert_eq!(invalid("P6 1 -1 255 "), "Invalid PPM height");
    assert_eq!(invalid("P6 1 1 4294967296 "), "Invalid PPM maxval");
    assert_eq!(invalid("P6 + 1 255 "), "Invalid PPM width");
    assert_eq!(invalid("P6 x y z "), "Invalid PPM width");
}

#[test]
fn pam_numbers_that_are_none() {
    assert_eq!(invalid("P7 WIDTH x "), "Invalid PAM WIDTH");
    assert_eq!(invalid("P7 HEIGHT x "), "Invalid PAM HEIGHT");
    assert_eq!(invalid("P7 DEPTH x "), "Invalid PAM DEPTH");
    assert_eq!(invalid("P7 MAXVAL x "), "Invalid PAM MAXVAL");
}

#[test]
fn pam_entries_that_are_missing() {
    assert_eq!(invalid("P7 ENDHDR "), "PAM missing WIDTH");
    assert_eq!(invalid("P7 WIDTH 1 ENDHDR "), "PAM missing HEIGHT");
    assert_eq!(invalid("P7 WIDTH 1 HEIGHT 1 ENDHDR "), "PAM missing DEPTH");
    assert_eq!(invalid("P7 WIDTH 1 HEIGHT 1 DEPTH 1 ENDHDR "), "PAM missing MAXVAL");
    assert_eq!(
        invalid("P7 WIDTH 1 HEIGHT 1 DEPTH 15 MAXVAL 1 ENDHDR "),
        "Unsupported PAM DEPTH: 15"
    );
}

#[test]
fn streams_that_end_too_early() {
    for text in ["", "  ", "# only a comment", "P6", "P6 1 2", "P6 x", "P7 WIDTH 3", "P7 WIDTH"] {
        assert_eq!(
            error(text),
            (HeaderErrorKind::UnexpectedEof, "Unexpected EOF reading header".to_string())
        );
    }
}

#[test]
fn tokens_one_by_one() {
    let mut reader = TokenReader::new();
    assert!(matches!(read_token(&mut reader, b"  ab"), TokenRead::More));
    match read_token(&mut reader, b"c d") {
        TokenRead::Token { token, used } => assert_eq!((token.as_str(), used), ("abc", 2)),
        _ => panic!("no token"),
    }
    assert!(matches!(read_token(&mut reader, b"d"), TokenRead::More));
    match read_token(&mut reader, b"") {
        TokenRead::Token { token, used } => assert_eq!((token.as_str(), used), ("d", 0)),
        _ => panic!("no token"),
    }
    assert!(matches!(read_token(&mut reader, b""), TokenRead::Eof));
}

#[test]
fn gaps_between_tokens_change_nothing() {
    let plain = "P7 WIDTH 12 HEIGHT 34 DEPTH 4 MAXVAL 255 ENDHDR ";
    let expected = header(12, 34, 8, 6);
    assert_eq!(read(plain.as_bytes(), 6), (Ok(expected), plain.len()));
    for gap in [" ", "\t", "\r\n", "#\n", "# WIDTH 9 # ENDHDR\n", "\x0c# a\n # b\n"] {
        for (at, _) in plain.match_indices(' ').filter(|(i, _)| i + 1 < plain.len()) {
            let text = format!("{}{}{}", &plain[..at + 1], gap, &plain[at + 1..]);
            assert_eq!(read(text.as_bytes(), 5), (Ok(expected), text.len()));
        }
    }
}

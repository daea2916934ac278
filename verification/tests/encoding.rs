use pngstreamenc::chunk::{crc32, write_chunk, IDAT};
use pngstreamenc::closing::close_png_encode;
use pngstreamenc::driver::{Action, Event, Flush};
use pngstreamenc::encoder::{PngEncoder, Settings, OUT_BUF_SIZE};
use pngstreamenc::last_error::{get_last_error, LastError};
use pngstreamenc::opening::{open_png_encode, open_png_encode_stream, OpenReply};
use pngstreamenc::options::ZlibOptions;
use pngstreamenc::scanlines::{check_scanlines, encode_scanlines};

const OPTIONS: ZlibOptions = ZlibOptions { level: 6, strategy: 0, window_bits: 15, mem_level: 8 };
const MAGIC: [u8; 8] = [137, 80, 78, 71, 13, 10, 26, 10];

fn settings(width: u32, color_type: u8, bit_depth: u8, filter_type: u8) -> Settings {
    Settings { width, height: 2, bit_depth, color_type, filter_type }
}

fn message(last: &LastError) -> String {
    String::from_utf8(get_last_error(last)).unwrap()
}

fn written(action: Action) -> Vec<u8> {
    match action {
        Action::Write(bytes) => bytes,
        other => panic!("not a write: {:?}", other),
    }
}

fn asked(reply: OpenReply) -> Action {
    match reply {
        OpenReply::Do(action) => action,
        _ => panic!("nothing asked"),
    }
}

fn open(s: Settings) -> (PngEncoder, Vec<u8>) {
    let mut last = LastError::new();
    let (mut job, first) = open_png_encode_stream(s, OPTIONS);
    let mut file = written(first);
    file.extend(written(asked(job.step(&mut last, Event::Written))));
    match asked(job.step(&mut last, Event::Written)) {
        Action::InitDeflate(options) => assert_eq!(options, OPTIONS),
        other => panic!("no set-up: {:?}", other),
    }
    match job.step(&mut last, Event::Initialized { code: 0 }) {
        OpenReply::Ready(enc) => {
            assert_eq!(message(&last), "");
            (enc, file)
        }
        _ => panic!("not open"),
    }
}

/// A compressor that hands its input through, `piece` bytes at a time.
fn pass_through(enc: &PngEncoder, piece: usize) -> (u32, Vec<u8>) {
    let input = enc.pending_input();
    let n = input.len().min(piece).min(enc.avail_out());
    ((input.len() - n) as u32, input[..n].to_vec())
}

/// Encodes rows with the pass-through compressor and collects what is written.
fn encode(enc: &mut PngEncoder, last: &mut LastError, data: &[u8], n: u32, piece: usize) -> (bool, Vec<u8>) {
    let mut file = Vec::new();
    let (mut job, mut action) = encode_scanlines(enc, last, data, n);
    loop {
        action = match action {
            Action::Write(bytes) => {
                file.extend(bytes);
                job.step(enc, last, Event::Written)
            }
            Action::Deflate(flush) => {
                assert_eq!(flush, Flush::No);
                assert!(!enc.pending_input().is_empty());
                let (avail_in, produced) = pass_through(enc, piece);
                job.step(enc, last, Event::Deflated { code: 0, avail_in, produced: &produced })
            }
            Action::Finished(ok) => return (ok, file),
            other => panic!("unexpected: {:?}", other),
        };
    }
}

/// Closes a file whose compressor gives out `tail` in the end.
fn close(enc: PngEncoder, tail: &[u8]) -> Vec<u8> {
    let mut last = LastError::new();
    let mut file = Vec::new();
    let mut left = tail;
    let (mut job, mut action) = close_png_encode(enc);
    loop {
        action = match action {
            Action::Write(bytes) => {
                file.extend(bytes);
                job.step(&mut last, Event::Written)
            }
            Action::Deflate(flush) => {
                assert_eq!(flush, Flush::Finish);
                assert!(job.encoder().pending_input().is_empty());
                let n = left.len().min(job.encoder().avail_out());
                let (now, later) = left.split_at(n);
                left = later;
                let code = if left.is_empty() { 1 } else { 0 };
                job.step(&mut last, Event::Deflated { code, avail_in: 0, produced: now })
            }
            Action::FlushWriter => job.step(&mut last, Event::Flushed),
            Action::EndDeflate => job.step(&mut last, Event::Ended),
            Action::Finished(ok) => {
                assert!(ok);
                return file;
            }
            other => panic!("unexpected: {:?}", other),
        };
    }
}

/// The chunks of a file, with their CRCs checked.
fn chunks(file: &[u8]) -> Vec<(Vec<u8>, Vec<u8>)> {
    assert_eq!(&file[..8], &MAGIC);
    let mut pos = 8;
    let mut all = Vec::new();
    while pos < file.len() {
        let n = u32::from_be_bytes([file[pos], file[pos + 1], file[pos + 2], file[pos + 3]]) as usize;
        let end = pos + 8 + n;
        let crc = u32::from_be_bytes([file[end], file[end + 1], file[end + 2], file[end + 3]]);
        assert_eq!(crc, crc32(0, &file[pos + 4..end]));
        all.push((file[pos + 4..pos + 8].to_vec(), file[pos + 8..end].to_vec()));
        pos = end + 4;
    }
    all
}

#[test]
fn opening_writes_signature_and_header() {
    let (enc, file) = open(settings(3, 2, 8, 5));
    assert_eq!(&file[..8], &MAGIC);
    assert_eq!(
        chunks(&file),
        [(b"IHDR".to_vec(), vec![0, 0, 0, 3, 0, 0, 0, 2, 8, 2, 0, 0, 0])]
    );
    assert_eq!((enc.bytes_per_scanline, enc.bpp), (9, 3));
    assert_eq!((enc.width, enc.height, enc.bit_depth, enc.color_type, enc.filter_type), (3, 2, 8, 2, 5));
    assert_eq!((enc.avail_in(), enc.avail_out(), enc.row_len()), (0, OUT_BUF_SIZE, 9));
}

#[test]
fn row_sizes() {
    for (s, bytes, bpp) in [
        (settings(10, 0, 1, 0), 2, 1),
        (settings(10, 3, 4, 0), 5, 1),
        (settings(10, 4, 16, 0), 40, 4),
        (settings(10, 6, 8, 0), 40, 4),
        (settings(10, 6, 16, 0), 80, 8),
        (settings(0, 2, 8, 0), 0, 3),
        (settings(9, 0, 0, 0), 0, 1),
    ] {
        let enc = PngEncoder::new(s);
        assert_eq!((enc.bytes_per_scanline, enc.bpp), (bytes, bpp));
        assert_eq!((enc.width, enc.height, enc.filter_type), (s.width, s.height, s.filter_type));
        assert_eq!((enc.bit_depth, enc.color_type), (s.bit_depth, s.color_type));
    }
}

#[test]
fn a_file_is_created_first() {
    let mut last = LastError::new();
    let (mut job, first) = open_png_encode(settings(3, 2, 8, 0), OPTIONS);
    assert!(matches!(first, Action::CreateFile));
    assert_eq!(written(asked(job.step(&mut last, Event::Created))), MAGIC);
}

#[test]
fn opening_that_fails() {
    let mut last = LastError::new();
    let reason = Event::Failed { message: "no space" };
    let (mut job, _) = open_png_encode(settings(3, 2, 8, 0), OPTIONS);
    assert!(matches!(job.step(&mut last, reason), OpenReply::Failed));
    assert_eq!(message(&last), "Could not create output file");

    let (mut job, _) = open_png_encode_stream(settings(3, 2, 8, 0), OPTIONS);
    assert!(matches!(job.step(&mut last, reason), OpenReply::Failed));
    assert_eq!(message(&last), "Failed to write PNG magic");

    let (mut job, _) = open_png_encode_stream(settings(3, 2, 8, 0), OPTIONS);
    job.step(&mut last, Event::Written);
    assert!(matches!(job.step(&mut last, reason), OpenReply::Failed));
    assert_eq!(message(&last), "Failed to write IHDR");

    let (mut job, _) = open_png_encode_stream(settings(3, 5, 8, 0), OPTIONS);
    job.step(&mut last, Event::Written);
    assert!(matches!(job.step(&mut last, Event::Written), OpenReply::Failed));
    assert_eq!(message(&last), "Unsupported color type");

    let (mut job, _) = open_png_encode_stream(settings(3, 2, 8, 0), OPTIONS);
    job.step(&mut last, Event::Written);
    job.step(&mut last, Event::Written);
    assert!(matches!(job.step(&mut last, Event::Initialized { code: -2 }), OpenReply::Failed));
    assert_eq!(message(&last), "ZLIB Init failed with code: -2");
}

#[test]
fn two_rows_make_a_file() {
    let mut last = LastError::new();
    let (mut enc, mut file) = open(settings(3, 0, 8, 2));
    let (ok, more) = encode(&mut enc, &mut last, &[10, 20, 30, 11, 22, 33], 2, 3);
    assert!(ok);
    assert!(more.is_empty());
    file.extend(close(enc, &[77, 78]));
    assert_eq!(
        chunks(&file)[1..],
        [
            (b"IDAT".to_vec(), vec![2, 10, 20, 30, 2, 1, 2, 3, 77, 78]),
            (b"IEND".to_vec(), vec![])
        ]
    );
    assert_eq!(message(&last), "");
}

#[test]
fn every_filter_setting() {
    let rows = [10u8, 20, 30, 11, 22, 33];
    let expected: [(u8, [u8; 8]); 7] = [
        (0, [0, 10, 20, 30, 0, 11, 22, 33]),
        (1, [1, 10, 10, 10, 1, 11, 11, 11]),
        (2, [2, 10, 20, 30, 2, 1, 2, 3]),
        (3, [3, 10, 15, 20, 3, 6, 7, 7]),
        (4, [4, 10, 10, 10, 4, 1, 2, 3]),
        (5, [1, 10, 10, 10, 2, 1, 2, 3]),
        (6, [0, 10, 20, 30, 0, 11, 22, 33]),
    ];
    for (filter_type, bytes) in expected {
        let mut last = LastError::new();
        let (mut enc, mut file) = open(settings(3, 0, 8, filter_type));
        assert!(encode(&mut enc, &mut last, &rows, 2, 100).0);
        file.extend(close(enc, &[]));
        assert_eq!(chunks(&file)[1].1, bytes);
    }
}

#[test]
fn batches_make_no_difference() {
    let rows: Vec<u8> = (0..60u32).map(|i| (i * i) as u8).collect();
    let mut last = LastError::new();
    let (mut whole, mut file) = open(settings(5, 2, 8, 5));
    assert!(encode(&mut whole, &mut last, &rows, 4, 7).0);
    file.extend(close(whole, &[1]));
    let (mut parts, mut other) = open(settings(5, 2, 8, 5));
    assert!(encode(&mut parts, &mut last, &rows[..15], 1, 100).0);
    assert!(encode(&mut parts, &mut last, &rows[15..], 3, 1).0);
    other.extend(close(parts, &[1]));
    assert_eq!(file, other);
}

fn paeth(a: i32, b: i32, c: i32) -> i32 {
    let p = a + b - c;
    let (pa, pb, pc) = ((p - a).abs(), (p - b).abs(), (p - c).abs());
    if pa <= pb && pa <= pc {
        a
    } else if pb <= pc {
        b
    } else {
        c
    }
}

/// Rebuilds the rows of an image from its filtered stream, as a PNG reader does.
fn unfilter(stream: &[u8], width: usize, bpp: usize) -> Vec<u8> {
    let mut image: Vec<u8> = Vec::new();
    let mut above = vec![0u8; width];
    for line in stream.chunks(width + 1) {
        let mut row: Vec<u8> = Vec::new();
        for i in 0..width {
            let left = if i < bpp { 0 } else { row[i - bpp] as i32 };
            let up_left = if i < bpp { 0 } else { above[i - bpp] as i32 };
            let up = above[i] as i32;
            let predicted = match line[0] {
                0 => 0,
                1 => left,
                2 => up,
                3 => (left + up) / 2,
                4 => paeth(left, up, up_left),
                _ => panic!("unknown filter"),
            };
            row.push(line[i + 1].wrapping_add(predicted as u8));
        }
        image.extend_from_slice(&row);
        above = row;
    }
    image
}

#[test]
fn a_session_gives_the_image_back() {
    for filter_type in 0..8 {
        for (color_type, bit_depth) in [(0, 1), (0, 8), (2, 8), (4, 16), (6, 8), (6, 16), (3, 4)] {
            let mut last = LastError::new();
            let (mut enc, mut file) = open(settings(7, color_type, bit_depth, filter_type));
            let (width, bpp) = (enc.bytes_per_scanline, enc.bpp);
            let image: Vec<u8> = (0..9 * width).map(|i| (i * i / 3 + i) as u8).collect();
            for (from, to, piece) in [(0, 4, 5), (4, 5, 1), (5, 9, 1000)] {
                let rows = &image[from * width..to * width];
                let (ok, more) = encode(&mut enc, &mut last, rows, (to - from) as u32, piece);
                assert!(ok);
                file.extend(more);
            }
            file.extend(close(enc, &[]));
            let all = chunks(&file);
            assert_eq!(all.len(), 3);
            assert_eq!(all[0].1, [0, 0, 0, 7, 0, 0, 0, 2, bit_depth, color_type, 0, 0, 0]);
            assert_eq!(unfilter(&all[1].1, width, bpp), image);
        }
    }
}

#[test]
fn full_output_becomes_a_chunk() {
    let width = 1_500_000usize;
    let row: Vec<u8> = (0..2 * width).map(|i| (i * 31 / 7) as u8).collect();
    let mut last = LastError::new();
    let (mut enc, mut file) = open(settings(width as u32, 0, 8, 0));
    let (ok, more) = encode(&mut enc, &mut last, &row, 2, usize::MAX);
    assert!(ok);
    file.extend(more);
    file.extend(close(enc, &vec![5u8; OUT_BUF_SIZE]));
    let all = chunks(&file);
    assert_eq!(all.len(), 5);
    assert_eq!(all[1].1.len(), OUT_BUF_SIZE);
    assert_eq!(all[2].1.len(), OUT_BUF_SIZE);
    let mut stream = Vec::new();
    for (kind, data) in &all[1..4] {
        assert_eq!(kind, b"IDAT");
        stream.extend_from_slice(data);
    }
    assert_eq!(stream.len(), 2 * (width + 1) + OUT_BUF_SIZE);
    assert_eq!(stream[0], 0);
    assert_eq!(&stream[1..width + 1], &row[..width]);
    assert_eq!(&stream[width + 2..2 * width + 2], &row[width..]);
    assert_eq!(all[4], (b"IEND".to_vec(), vec![]));
}

#[test]
fn a_file_without_image_data() {
    let (enc, mut file) = open(settings(3, 0, 8, 0));
    file.extend(close(enc, &[]));
    assert_eq!(chunks(&file).len(), 2);
}

#[test]
fn empty_rows_carry_their_kind() {
    let mut last = LastError::new();
    let (mut enc, mut file) = open(settings(0, 2, 8, 1));
    assert!(encode(&mut enc, &mut last, &[], 3, 9).0);
    file.extend(close(enc, &[]));
    assert_eq!(chunks(&file)[1].1, [1, 1, 1]);
}

#[test]
fn no_rows_are_refused() {
    let text = "Invalid encoder handle, null data buffer, or 0 scanlines specified";
    let mut last = LastError::new();
    let (mut enc, _) = open(settings(3, 0, 8, 0));
    let (_, action) = encode_scanlines(&mut enc, &mut last, &[], 0);
    assert!(matches!(action, Action::Finished(false)));
    assert_eq!(message(&last), text);
    for (a, b, n) in [(false, true, 1), (true, false, 1), (true, true, 0)] {
        let mut last = LastError::new();
        assert!(!check_scanlines(&mut last, a, b, n));
        assert_eq!(message(&last), text);
    }
    let mut last = LastError::new();
    assert!(check_scanlines(&mut last, true, true, 1));
    assert_eq!(message(&last), "");
}

#[test]
fn compressor_failure_while_encoding() {
    let mut last = LastError::new();
    let (mut enc, _) = open(settings(3, 0, 8, 0));
    let (mut job, action) = encode_scanlines(&mut enc, &mut last, &[1, 2, 3], 1);
    assert!(matches!(action, Action::Deflate(Flush::No)));
    let action =
        job.step(&mut enc, &mut last, Event::Deflated { code: -5, avail_in: 4, produced: &[] });
    assert!(matches!(action, Action::Finished(false)));
    assert_eq!(message(&last), "ZLIB deflate error code: -5");
}

#[test]
fn write_failure_while_encoding() {
    let mut last = LastError::new();
    let full = vec![0u8; OUT_BUF_SIZE];
    let (mut enc, _) = open(settings(3, 0, 8, 0));
    let (mut job, _) = encode_scanlines(&mut enc, &mut last, &[1, 2, 3], 1);
    let action =
        job.step(&mut enc, &mut last, Event::Deflated { code: 0, avail_in: 2, produced: &full });
    let mut expected = Vec::new();
    write_chunk(&mut expected, &IDAT, &full);
    assert_eq!(written(action), expected);
    let action = job.step(&mut enc, &mut last, Event::Failed { message: "broken pipe" });
    assert!(matches!(action, Action::Finished(false)));
    assert_eq!(message(&last), "IO Write Error during IDAT flush: Failed to write IDAT chunk");
}

#[test]
fn closing_that_fails() {
    let reason = Event::Failed { message: "broken pipe" };
    let done = Event::Deflated { code: 1, avail_in: 0, produced: &[1] };
    let full = vec![0u8; OUT_BUF_SIZE];
    let mut last = LastError::new();

    let (mut job, action) = close_png_encode(open(settings(3, 0, 8, 0)).0);
    assert!(matches!(action, Action::Deflate(Flush::Finish)));
    job.step(&mut last, Event::Deflated { code: 0, avail_in: 0, produced: &full });
    assert!(matches!(job.step(&mut last, reason), Action::Finished(false)));
    assert_eq!(
        message(&last),
        "IO Write Error during final stream flush: Failed to write IDAT chunk"
    );

    let (mut job, _) = close_png_encode(open(settings(3, 0, 8, 0)).0);
    let stalled = Event::Deflated { code: -5, avail_in: 0, produced: &[] };
    assert!(matches!(job.step(&mut last, stalled), Action::Deflate(Flush::Finish)));
    let failed = Event::Deflated { code: -3, avail_in: 0, produced: &[] };
    assert!(matches!(job.step(&mut last, failed), Action::Finished(false)));
    assert_eq!(message(&last), "ZLIB deflate finish error code: -3");

    let (mut job, _) = close_png_encode(open(settings(3, 0, 8, 0)).0);
    job.step(&mut last, done);
    assert!(matches!(job.step(&mut last, reason), Action::Finished(false)));
    assert_eq!(
        message(&last),
        "IO Write Error writing remaining IDAT data: Failed to write IDAT chunk"
    );

    let (mut job, _) = close_png_encode(open(settings(3, 0, 8, 0)).0);
    job.step(&mut last, done);
    job.step(&mut last, Event::Written);
    assert!(matches!(job.step(&mut last, reason), Action::Finished(false)));
    assert_eq!(message(&last), "IO Write Error writing IEND chunk: broken pipe");

    let (mut job, _) = close_png_encode(open(settings(3, 0, 8, 0)).0);
    job.step(&mut last, done);
    job.step(&mut last, Event::Written);
    assert!(matches!(job.step(&mut last, Event::Written), Action::FlushWriter));
    assert!(matches!(job.step(&mut last, reason), Action::Finished(false)));
    assert_eq!(message(&last), "IO Flush Error: broken pipe");
}

/// What a batch asks for: the chunks it writes, and where it runs the compressor.
fn requests(
    enc: &mut PngEncoder,
    last: &mut LastError,
    data: &[u8],
    n: u32,
    piece: usize,
) -> Vec<Option<Vec<u8>>> {
    let mut all = Vec::new();
    let (mut job, mut action) = encode_scanlines(enc, last, data, n);
    loop {
        action = match action {
            Action::Write(bytes) => {
                all.push(Some(bytes));
                job.step(enc, last, Event::Written)
            }
            Action::Deflate(Flush::No) => {
                all.push(None);
                let (avail_in, produced) = pass_through(enc, piece);
                job.step(enc, last, Event::Deflated { code: 0, avail_in, produced: &produced })
            }
            Action::Finished(ok) => {
                assert!(ok);
                return all;
            }
            other => panic!("unexpected: {:?}", other),
        };
    }
}

#[test]
fn two_batches_ask_for_what_one_asks_for() {
    let width = 700_000usize;
    let rows: Vec<u8> = (0..5 * width).map(|i| (i * 13 / 5) as u8).collect();
    let mut last = LastError::new();
    let s = settings(width as u32, 0, 8, 1);
    let mut whole = open(s).0;
    let mut parts = open(s).0;
    let one = requests(&mut whole, &mut last, &rows, 5, 300_000);
    let mut two = requests(&mut parts, &mut last, &rows[..2 * width], 2, 300_000);
    two.extend(requests(&mut parts, &mut last, &rows[2 * width..], 3, 300_000));
    assert_eq!(one.iter().filter(|r| r.is_some()).count(), 1);
    assert!(one == two);
    assert_eq!(whole.avail_out(), parts.avail_out());
}

#[test]
fn all_image_chunks_but_the_last_are_full() {
    for len in [0, 1, OUT_BUF_SIZE - 1, OUT_BUF_SIZE, OUT_BUF_SIZE + 1, 2 * OUT_BUF_SIZE] {
        let (enc, mut file) = open(settings(3, 0, 8, 0));
        file.extend(close(enc, &vec![9u8; len]));
        let sizes: Vec<usize> = chunks(&file)
            .iter()
            .filter(|(kind, _)| kind == b"IDAT")
            .map(|(_, data)| data.len())
            .collect();
        let mut expected = vec![OUT_BUF_SIZE; len / OUT_BUF_SIZE];
        if len % OUT_BUF_SIZE > 0 {
            expected.push(len % OUT_BUF_SIZE);
        }
        assert_eq!(sizes, expected);
    }
}

#[test]
fn closing_flushes_before_it_ends() {
    let mut last = LastError::new();
    let (mut job, _) = close_png_encode(open(settings(3, 0, 8, 0)).0);
    job.step(&mut last, Event::Deflated { code: 1, avail_in: 0, produced: &[1] });
    job.step(&mut last, Event::Written);
    assert!(matches!(job.step(&mut last, Event::Written), Action::FlushWriter));
    assert!(matches!(job.step(&mut last, Event::Flushed), Action::EndDeflate));
    assert!(matches!(job.step(&mut last, Event::Ended), Action::Finished(true)));
}

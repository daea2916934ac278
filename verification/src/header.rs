//! Reading the header of a PPM (P6) or PAM (P7) image from a stream of bytes.
//!
//! The bytes come in buffers of any size. A buffer is scanned for tokens, and what it leaves
//! unfinished is kept for the next one. An empty buffer stands for the end of the stream.
use crate::text::{decimal, parse_u32, parsed, push_decimal, same_text};
use vstd::prelude::*;
use vstd::string::*;

verus! {

/// Whether `b` is ASCII white space: space, tab, line feed, form feed or carriage return.
pub open spec fn is_space(b: u8) -> bool {
    b == 32 || b == 9 || b == 10 || b == 12 || b == 13
}

/// A token that is being read: the characters so far, and whether a comment is being skipped.
pub struct Partial {
    pub token: Seq<char>,
    pub in_comment: bool,
}

/// Nothing read yet.
pub open spec fn fresh() -> Partial {
    Partial { token: Seq::empty(), in_comment: false }
}

/// What one byte makes of a partial token.
pub open spec fn take_byte(p: Partial, b: u8) -> Partial {
    if p.in_comment {
        Partial { in_comment: b != 10, ..p }
    } else if b == 35 && p.token.len() == 0 {
        Partial { in_comment: true, ..p }
    } else if is_space(b) {
        p
    } else {
        Partial { token: p.token.push(b as char), ..p }
    }
}

/// Whether byte `b` completes the token: white space behind at least one character.
pub open spec fn completes(p: Partial, b: u8) -> bool {
    !p.in_comment && p.token.len() > 0 && is_space(b)
}

/// How far a scan got: the (partial) token, the bytes used up, and whether the token is
/// complete.
pub struct Scan {
    pub partial: Partial,
    pub used: nat,
    pub done: bool,
}

/// Scans `buf` to the end of the token. The white space that ends it is used up too.
pub open spec fn scan(p: Partial, buf: Seq<u8>) -> Scan
    decreases buf.len(),
{
    if buf.len() == 0 {
        Scan { partial: p, used: 0, done: false }
    } else if completes(p, buf[0]) {
        Scan { partial: p, used: 1, done: true }
    } else {
        let r = scan(take_byte(p, buf[0]), buf.skip(1));
        Scan { used: r.used + 1, ..r }
    }
}

/// Kinds of failure when a header is read.
#[derive(Clone, Copy, Debug, PartialEq, Eq, Structural)]
pub enum HeaderErrorKind {
    /// The stream ended within the header.
    UnexpectedEof,
    /// The header says something that cannot be used.
    InvalidData,
}

/// Why a header could not be read.
#[derive(Debug)]
pub struct HeaderError {
    pub kind: HeaderErrorKind,
    pub message: String,
}

/// A failure with its message as a sequence of characters.
pub struct Failure {
    pub kind: HeaderErrorKind,
    pub message: Seq<char>,
}

impl View for HeaderError {
    type V = Failure;

    open spec fn view(&self) -> Failure {
        Failure { kind: self.kind, message: self.message@ }
    }
}

/// What the encoder has to know of an image.
#[derive(Clone, Copy, Debug, PartialEq, Eq, Structural)]
pub struct ImageHeader {
    pub width: u32,
    pub height: u32,
    pub bit_depth: u8,
    pub color_type: u8,
}

/// The entries of a PAM header that have been seen, each with the value it had last.
#[derive(Clone, Copy, Debug, PartialEq, Eq, Structural)]
pub struct PamFields {
    pub width: Option<u32>,
    pub height: Option<u32>,
    pub depth: Option<u32>,
    pub maxval: Option<u32>,
}

/// An entry of a PAM header that a value belongs to.
#[derive(Clone, Copy, Debug, PartialEq, Eq, Structural)]
pub enum PamKey {
    Width,
    Height,
    Depth,
    Maxval,
    Tupltype,
}

/// Which token of the header comes next, with what the earlier ones said. The numbers of a
/// PPM header are kept as they were read, `None` where a token was no number.
#[derive(Clone, Copy, Debug, PartialEq, Eq, Structural)]
pub enum HeaderStage {
    Magic,
    PpmWidth,
    PpmHeight { width: Option<u32> },
    PpmMaxval { width: Option<u32>, height: Option<u32> },
    PamEntry { fields: PamFields },
    PamValue { fields: PamFields, key: PamKey },
}

/// What a token leads to.
pub enum Progress {
    Next(HeaderStage),
    Done(ImageHeader),
    Failed(Failure),
}

/// A failure over what the header says.
pub open spec fn invalid(message: Seq<char>) -> Progress {
    Progress::Failed(Failure { kind: HeaderErrorKind::InvalidData, message })
}

/// No entry seen.
pub open spec fn no_fields() -> PamFields {
    PamFields { width: None, height: None, depth: None, maxval: None }
}

/// The bit depth that holds samples up to `maxval`.
pub open spec fn depth_for(maxval: u32) -> u8 {
    if maxval > 255 {
        16
    } else {
        8
    }
}

/// The PNG color type for a number of channels.
pub open spec fn color_for(channels: u32) -> Option<u8> {
    if channels == 1 {
        Some(0)
    } else if channels == 2 {
        Some(4)
    } else if channels == 3 {
        Some(2)
    } else if channels == 4 {
        Some(6)
    } else {
        None
    }
}

/// The end of a PPM header. The numbers are looked at in the order in which they stand.
pub open spec fn finish_ppm(
    width: Option<u32>,
    height: Option<u32>,
    maxval: Option<u32>,
) -> Progress {
    match (width, height, maxval) {
        (None, _, _) => invalid("Invalid PPM width"@),
        (_, None, _) => invalid("Invalid PPM height"@),
        (_, _, None) => invalid("Invalid PPM maxval"@),
        (Some(w), Some(h), Some(m)) => Progress::Done(
            ImageHeader { width: w, height: h, bit_depth: depth_for(m), color_type: 2 },
        ),
    }
}

/// The end of a PAM header.
pub open spec fn finish_pam(f: PamFields) -> Progress {
    match (f.width, f.height, f.depth, f.maxval) {
        (None, _, _, _) => invalid("PAM missing WIDTH"@),
        (_, None, _, _) => invalid("PAM missing HEIGHT"@),
        (_, _, None, _) => invalid("PAM missing DEPTH"@),
        (_, _, _, None) => invalid("PAM missing MAXVAL"@),
        (Some(w), Some(h), Some(d), Some(m)) => match color_for(d) {
            None => invalid("Unsupported PAM DEPTH: "@ + decimal(d as nat)),
            Some(c) => Progress::Done(
                ImageHeader { width: w, height: h, bit_depth: depth_for(m), color_type: c },
            ),
        },
    }
}

/// The entry that a PAM keyword opens.
pub open spec fn key_for(token: Seq<char>) -> Option<PamKey> {
    if token == "WIDTH"@ {
        Some(PamKey::Width)
    } else if token == "HEIGHT"@ {
        Some(PamKey::Height)
    } else if token == "DEPTH"@ {
        Some(PamKey::Depth)
    } else if token == "MAXVAL"@ {
        Some(PamKey::Maxval)
    } else if token == "TUPLTYPE"@ {
        Some(PamKey::Tupltype)
    } else {
        None
    }
}

/// The value of a PAM entry. The tuple type is read over.
pub open spec fn set_field(f: PamFields, key: PamKey, value: Option<u32>) -> Progress {
    match key {
        PamKey::Tupltype => Progress::Next(HeaderStage::PamEntry { fields: f }),
        PamKey::Width => if value is None {
            invalid("Invalid PAM WIDTH"@)
        } else {
            Progress::Next(HeaderStage::PamEntry { fields: (PamFields { width: value, ..f }) })
        },
        PamKey::Height => if value is None {
            invalid("Invalid PAM HEIGHT"@)
        } else {
            Progress::Next(HeaderStage::PamEntry { fields: (PamFields { height: value, ..f }) })
        },
        PamKey::Depth => if value is None {
            invalid("Invalid PAM DEPTH"@)
        } else {
            Progress::Next(HeaderStage::PamEntry { fields: (PamFields { depth: value, ..f }) })
        },
        PamKey::Maxval => if value is None {
            invalid("Invalid PAM MAXVAL"@)
        } else {
            Progress::Next(HeaderStage::PamEntry { fields: (PamFields { maxval: value, ..f }) })
        },
    }
}

/// What `token` leads to where `stage` expects it. Unknown entries of a PAM header are read
/// over.
pub open spec fn take_token(stage: HeaderStage, token: Seq<char>) -> Progress {
    match stage {
        HeaderStage::Magic => if token == "P6"@ {
            Progress::Next(HeaderStage::PpmWidth)
        } else if token == "P7"@ {
            Progress::Next(HeaderStage::PamEntry { fields: no_fields() })
        } else {
            invalid("Expected P6 (PPM) or P7 (PAM) format, got: "@ + token)
        },
        HeaderStage::PpmWidth => Progress::Next(
            HeaderStage::PpmHeight { width: parsed(token) },
        ),
        HeaderStage::PpmHeight { width } => Progress::Next(
            HeaderStage::PpmMaxval { width, height: parsed(token) },
        ),
        HeaderStage::PpmMaxval { width, height } => finish_ppm(width, height, parsed(token)),
        HeaderStage::PamEntry { fields } => if token == "ENDHDR"@ {
            finish_pam(fields)
        } else {
            match key_for(token) {
                Some(key) => Progress::Next(HeaderStage::PamValue { fields, key }),
                None => Progress::Next(HeaderStage::PamEntry { fields }),
            }
        },
        HeaderStage::PamValue { fields, key } => set_field(fields, key, parsed(token)),
    }
}

/// A header that is being read.
pub struct Reading {
    pub partial: Partial,
    pub stage: HeaderStage,
}

/// What a buffer leads to: the state behind it, the bytes used up, and the last token's
/// progress. `Next` means that the header is not complete.
pub struct Fed {
    pub reading: Reading,
    pub used: nat,
    pub progress: Progress,
}

/// Reads tokens from `buf` until the header is complete, fails, or the buffer is used up.
pub open spec fn feed(r: Reading, buf: Seq<u8>) -> Fed
    decreases buf.len(),
    via feed_decreases
{
    let s = scan(r.partial, buf);
    if !s.done {
        Fed {
            reading: Reading { partial: s.partial, stage: r.stage },
            used: s.used,
            progress: Progress::Next(r.stage),
        }
    } else {
        match take_token(r.stage, s.partial.token) {
            Progress::Next(stage) => {
                let rest = feed(
                    Reading { partial: fresh(), stage },
                    buf.skip(s.used as int),
                );
                Fed { used: rest.used + s.used, ..rest }
            },
            progress => Fed {
                reading: Reading { partial: fresh(), stage: r.stage },
                used: s.used,
                progress,
            },
        }
    }
}

#[via_fn]
proof fn feed_decreases(r: Reading, buf: Seq<u8>) {
    lemma_scan_used(r.partial, buf);
}

/// The end of the stream completes a token that has begun; without one the header is cut off.
pub open spec fn feed_end(r: Reading) -> Fed {
    if r.partial.token.len() == 0 {
        Fed {
            reading: r,
            used: 0,
            progress: Progress::Failed(
                Failure {
                    kind: HeaderErrorKind::UnexpectedEof,
                    message: "Unexpected EOF reading header"@,
                },
            ),
        }
    } else {
        match take_token(r.stage, r.partial.token) {
            Progress::Next(stage) => Fed {
                reading: Reading { partial: fresh(), stage },
                used: 0,
                progress: Progress::Next(stage),
            },
            progress => Fed {
                reading: Reading { partial: fresh(), stage: r.stage },
                used: 0,
                progress,
            },
        }
    }
}

/// A scan uses up at most the buffer, all of it unless the token is complete, and at least
/// one byte if it is.
pub proof fn lemma_scan_used(p: Partial, buf: Seq<u8>)
    ensures
        scan(p, buf).used <= buf.len(),
        scan(p, buf).done ==> scan(p, buf).used >= 1,
        scan(p, buf).done ==> scan(p, buf).partial.token.len() > 0,
        !scan(p, buf).done ==> scan(p, buf).used == buf.len(),
    decreases buf.len(),
{
    if buf.len() > 0 && !completes(p, buf[0]) {
        lemma_scan_used(take_byte(p, buf[0]), buf.skip(1));
    }
}

/// Reads tokens from a stream of bytes.
pub struct TokenReader {
    token: String,
    in_comment: bool,
}

impl View for TokenReader {
    type V = Partial;

    closed spec fn view(&self) -> Partial {
        Partial { token: self.token@, in_comment: self.in_comment }
    }
}

impl TokenReader {
    /// A reader that has seen nothing yet.
    pub fn new() -> (r: Self)
        ensures
            r@ == fresh(),
    {
        TokenReader { token: String::new(), in_comment: false }
    }

    /// Takes the token out and leaves the reader as if it had seen nothing.
    fn take(&mut self) -> (t: String)
        ensures
            t@ == old(self)@.token,
            final(self)@ == fresh(),
    {
        let mut t = String::new();
        std::mem::swap(&mut t, &mut self.token);
        self.in_comment = false;
        t
    }
}

/// What a buffer holds of the next token.
pub enum TokenRead {
    /// The buffer is used up and the token is not complete.
    More,
    /// The token is complete; `used` bytes of the buffer belong to it.
    Token { token: String, used: usize },
    /// The stream ended before a token began.
    Eof,
}

/// Reads the next token from `buf`. Comments run from a `#` where a token could begin to the
/// end of the line. An empty buffer is the end of the stream: it completes a token that has
/// begun.
pub fn read_token(reader: &mut TokenReader, buf: &[u8]) -> (r: TokenRead)
    ensures
        match r {
            TokenRead::More => {
                &&& buf@.len() > 0
                &&& !scan(old(reader)@, buf@).done
                &&& final(reader)@ == scan(old(reader)@, buf@).partial
            },
            TokenRead::Token { token, used } => {
                &&& final(reader)@ == fresh()
                &&& if buf@.len() == 0 {
                    &&& used == 0
                    &&& token@ == old(reader)@.token
                    &&& token@.len() > 0
                } else {
                    &&& scan(old(reader)@, buf@).done
                    &&& used == scan(old(reader)@, buf@).used
                    &&& token@ == scan(old(reader)@, buf@).partial.token
                }
            },
            TokenRead::Eof => {
                &&& buf@.len() == 0
                &&& old(reader)@.token.len() == 0
                &&& final(reader)@ == old(reader)@
            },
        },
{
    if buf.len() == 0 {
        if reader.token.as_str().is_empty() {
            return TokenRead::Eof;
        }
        let token = reader.take();
        return TokenRead::Token { token, used: 0 };
    }
    let ghost start = reader@;
    let mut i: usize = 0;
    assert(buf@.skip(0) =~= buf@);
    while i < buf.len()
        invariant
            i <= buf@.len(),
            buf@.len() > 0,
            start == old(reader)@,
            scan(start, buf@).used == scan(reader@, buf@.skip(i as int)).used + i,
            scan(start, buf@).done == scan(reader@, buf@.skip(i as int)).done,
            scan(start, buf@).partial == scan(reader@, buf@.skip(i as int)).partial,
        decreases buf@.len() - i,
    {
        let ghost before = reader@;
        let b: u8 = buf[i];
        assert(buf@.skip(i as int)[0] == b);
        assert(buf@.skip(i as int).skip(1) =~= buf@.skip(i + 1));
        i = i + 1;
        if reader.in_comment {
            if b == 10 {
                reader.in_comment = false;
            }
        } else {
            let empty: bool = reader.token.as_str().is_empty();
            if b == 35 && empty {
                reader.in_comment = true;
            } else if b == 32 || b == 9 || b == 10 || b == 12 || b == 13 {
                if !empty {
                    assert(completes(before, b));
                    let token = reader.take();
                    return TokenRead::Token { token, used: i };
                }
            } else {
                reader.token.push(b as char);
            }
        }
        assert(reader@ == take_byte(before, b));
    }
    TokenRead::More
}

/// What a token, or a buffer of them, leads to.
#[derive(Debug)]
pub enum HeaderProgress {
    /// The header goes on with this stage.
    Next(HeaderStage),
    /// The header is complete.
    Done(ImageHeader),
    /// The header cannot be used.
    Failed(HeaderError),
}

impl View for HeaderProgress {
    type V = Progress;

    open spec fn view(&self) -> Progress {
        match self {
            HeaderProgress::Next(stage) => Progress::Next(*stage),
            HeaderProgress::Done(header) => Progress::Done(*header),
            HeaderProgress::Failed(error) => Progress::Failed(error@),
        }
    }
}

/// A failure over what the header says.
fn fail(message: &str) -> (p: HeaderProgress)
    ensures
        p@ == invalid(message@),
{
    HeaderProgress::Failed(
        HeaderError { kind: HeaderErrorKind::InvalidData, message: message.to_owned() },
    )
}

/// The end of a PPM header.
fn end_ppm(width: Option<u32>, height: Option<u32>, maxval: Option<u32>) -> (p: HeaderProgress)
    ensures
        p@ == finish_ppm(width, height, maxval),
{
    match (width, height, maxval) {
        (None, _, _) => fail("Invalid PPM width"),
        (_, None, _) => fail("Invalid PPM height"),
        (_, _, None) => fail("Invalid PPM maxval"),
        (Some(w), Some(h), Some(m)) => HeaderProgress::Done(
            ImageHeader {
                width: w,
                height: h,
                bit_depth: if m > 255 { 16 } else { 8 },
                color_type: 2,
            },
        ),
    }
}

/// The end of a PAM header.
fn end_pam(f: PamFields) -> (p: HeaderProgress)
    ensures
        p@ == finish_pam(f),
{
    match (f.width, f.height, f.depth, f.maxval) {
        (None, _, _, _) => fail("PAM missing WIDTH"),
        (_, None, _, _) => fail("PAM missing HEIGHT"),
        (_, _, None, _) => fail("PAM missing DEPTH"),
        (_, _, _, None) => fail("PAM missing MAXVAL"),
        (Some(w), Some(h), Some(d), Some(m)) => {
            let color_type: u8 = match d {
                1 => 0,
                2 => 4,
                3 => 2,
                4 => 6,
                _ => {
                    let mut message = "Unsupported PAM DEPTH: ".to_owned();
                    push_decimal(&mut message, d);
                    return fail(message.as_str());
                },
            };
            HeaderProgress::Done(
                ImageHeader {
                    width: w,
                    height: h,
                    bit_depth: if m > 255 { 16 } else { 8 },
                    color_type,
                },
            )
        },
    }
}

/// The entry that a PAM keyword opens.
fn find_key(token: &str) -> (key: Option<PamKey>)
    ensures
        key == key_for(token@),
{
    if same_text(token, "WIDTH") {
        Some(PamKey::Width)
    } else if same_text(token, "HEIGHT") {
        Some(PamKey::Height)
    } else if same_text(token, "DEPTH") {
        Some(PamKey::Depth)
    } else if same_text(token, "MAXVAL") {
        Some(PamKey::Maxval)
    } else if same_text(token, "TUPLTYPE") {
        Some(PamKey::Tupltype)
    } else {
        None
    }
}

/// Notes the value of a PAM entry.
fn note_value(f: PamFields, key: PamKey, token: &str) -> (p: HeaderProgress)
    ensures
        p@ == set_field(f, key, parsed(token@)),
{
    let mut fields: PamFields = f;
    match key {
        PamKey::Tupltype => {},
        PamKey::Width => {
            fields.width = parse_u32(token);
            if fields.width.is_none() {
                return fail("Invalid PAM WIDTH");
            }
        },
        PamKey::Height => {
            fields.height = parse_u32(token);
            if fields.height.is_none() {
                return fail("Invalid PAM HEIGHT");
            }
        },
        PamKey::Depth => {
            fields.depth = parse_u32(token);
            if fields.depth.is_none() {
                return fail("Invalid PAM DEPTH");
            }
        },
        PamKey::Maxval => {
            fields.maxval = parse_u32(token);
            if fields.maxval.is_none() {
                return fail("Invalid PAM MAXVAL");
            }
        },
    }
    HeaderProgress::Next(HeaderStage::PamEntry { fields })
}

/// What `token` leads to where `stage` expects it.
pub fn advance(stage: HeaderStage, token: &str) -> (p: HeaderProgress)
    ensures
        p@ == take_token(stage, token@),
{
    match stage {
        HeaderStage::Magic => {
            if same_text(token, "P6") {
                HeaderProgress::Next(HeaderStage::PpmWidth)
            } else if same_text(token, "P7") {
                HeaderProgress::Next(
                    HeaderStage::PamEntry {
                        fields: PamFields { width: None, height: None, depth: None, maxval: None },
                    },
                )
            } else {
                let mut message = "Expected P6 (PPM) or P7 (PAM) format, got: ".to_owned();
                message.append(token);
                fail(message.as_str())
            }
        },
        HeaderStage::PpmWidth => HeaderProgress::Next(
            HeaderStage::PpmHeight { width: parse_u32(token) },
        ),
        HeaderStage::PpmHeight { width } => HeaderProgress::Next(
            HeaderStage::PpmMaxval { width, height: parse_u32(token) },
        ),
        HeaderStage::PpmMaxval { width, height } => end_ppm(width, height, parse_u32(token)),
        HeaderStage::PamEntry { fields } => {
            if same_text(token, "ENDHDR") {
                end_pam(fields)
            } else {
                match find_key(token) {
                    Some(key) => HeaderProgress::Next(HeaderStage::PamValue { fields, key }),
                    None => HeaderProgress::Next(HeaderStage::PamEntry { fields }),
                }
            }
        },
        HeaderStage::PamValue { fields, key } => note_value(fields, key, token),
    }
}

/// Reads a header from a stream of bytes.
pub struct HeaderReader {
    tokens: TokenReader,
    stage: HeaderStage,
}

impl View for HeaderReader {
    type V = Reading;

    closed spec fn view(&self) -> Reading {
        Reading { partial: self.tokens@, stage: self.stage }
    }
}

/// The state in which a header is begun.
pub open spec fn start_of_header() -> Reading {
    Reading { partial: fresh(), stage: HeaderStage::Magic }
}

impl HeaderReader {
    /// A reader that has seen nothing yet.
    pub fn new() -> (r: Self)
        ensures
            r@ == start_of_header(),
    {
        HeaderReader { tokens: TokenReader::new(), stage: HeaderStage::Magic }
    }
}

/// What a buffer leads to.
#[derive(Debug)]
pub struct HeaderRead {
    /// How many bytes of the buffer belong to the header.
    pub used: usize,
    /// Where the header stands; `Next` asks for another buffer.
    pub progress: HeaderProgress,
}

/// Reads the header of a PPM or PAM image from `buf`, going on from where the buffer before
/// left off. An empty buffer is the end of the stream.
pub fn read_image_header(reader: &mut HeaderReader, buf: &[u8]) -> (r: HeaderRead)
    ensures
        ({
            let fed = if buf@.len() == 0 {
                feed_end(old(reader)@)
            } else {
                feed(old(reader)@, buf@)
            };
            &&& final(reader)@ == fed.reading
            &&& r.used == fed.used
            &&& r.progress@ == fed.progress
            &&& r.used <= buf@.len()
        }),
{
    if buf.len() == 0 {
        return match read_token(&mut reader.tokens, buf) {
            TokenRead::Token { token, used } => {
                let progress = advance(reader.stage, token.as_str());
                if let HeaderProgress::Next(stage) = progress {
                    reader.stage = stage;
                }
                HeaderRead { used: 0, progress }
            },
            _ => HeaderRead {
                used: 0,
                progress: HeaderProgress::Failed(
                    HeaderError {
                        kind: HeaderErrorKind::UnexpectedEof,
                        message: "Unexpected EOF reading header".to_owned(),
                    },
                ),
            },
        };
    }
    let ghost start = reader@;
    let mut pos: usize = 0;
    assert(buf@.skip(0) =~= buf@);
    while pos < buf.len()
        invariant
            pos <= buf@.len(),
            buf@.len() > 0,
            start == old(reader)@,
            feed(start, buf@).reading == feed(reader@, buf@.skip(pos as int)).reading,
            feed(start, buf@).used == feed(reader@, buf@.skip(pos as int)).used + pos,
            feed(start, buf@).progress == feed(reader@, buf@.skip(pos as int)).progress,
        decreases buf@.len() - pos,
    {
        let ghost before = reader@;
        let rest: &[u8] = &buf[pos..buf.len()];
        assert(rest@ =~= buf@.skip(pos as int));
        proof {
            lemma_scan_used(before.partial, rest@);
        }
        match read_token(&mut reader.tokens, rest) {
            TokenRead::Token { token, used } => {
                pos = pos + used;
                assert(rest@.skip(used as int) =~= buf@.skip(pos as int));
                match advance(reader.stage, token.as_str()) {
                    HeaderProgress::Next(stage) => {
                        reader.stage = stage;
                    },
                    progress => {
                        return HeaderRead { used: pos, progress };
                    },
                }
            },
            _ => {
                return HeaderRead {
                    used: buf.len(),
                    progress: HeaderProgress::Next(reader.stage),
                };
            },
        }
    }
    assert(buf@.skip(pos as int) =~= Seq::empty());
    HeaderRead { used: pos, progress: HeaderProgress::Next(reader.stage) }
}

} // verus!

//! What holds of reading image headers as a whole.
use crate::header::{
    completes, feed, fresh, key_for, lemma_scan_used, no_fields, scan, start_of_header, take_byte,
    take_token, Fed, HeaderStage, ImageHeader, PamFields, PamKey, Partial, Progress, Reading, Scan,
};
use crate::text::{decimal, is_digit, law_decimal_parses, lemma_decimal_digits, parsed};
use vstd::prelude::*;
use vstd::string::*;

verus! {

/// Whether `b` is white space: tab, line feed, form feed, carriage return or space.
pub open spec fn is_white(b: u8) -> bool {
    b == 9 || b == 10 || b == 12 || b == 13 || b == 32
}

/// Behind a token that has begun, white space completes it and every other byte joins it, as
/// the character with that number.
pub proof fn law_white_space_ends_a_token(token: Seq<char>, b: u8)
    requires
        token.len() > 0,
    ensures
        ({
            let s = scan(Partial { token, in_comment: false }, seq![b]);
            &&& s.used == 1
            &&& s.done <==> is_white(b)
            &&& s.partial.in_comment == false
            &&& is_white(b) ==> s.partial.token == token
            &&& !is_white(b) ==> {
                &&& s.partial.token.len() == token.len() + 1
                &&& s.partial.token.drop_last() == token
                &&& s.partial.token.last() as u32 == b
            }
        }),
{
    let p = Partial { token, in_comment: false };
    let s = scan(p, seq![b]);
    assert(seq![b].skip(1) =~= Seq::empty());
    assert(scan(take_byte(p, b), Seq::empty()).used == 0);
    if !is_white(b) {
        assert(s.partial.token =~= token.push(b as char));
        assert(s.partial.token.drop_last() =~= token);
    }
}

/// Where a stream is cut into buffers makes no difference to its tokens: scanning two buffers
/// in turn is scanning them as one.
pub proof fn law_scan_in_parts(p: Partial, a: Seq<u8>, b: Seq<u8>)
    ensures
        scan(p, a + b) == if scan(p, a).done {
            scan(p, a)
        } else {
            let r = scan(scan(p, a).partial, b);
            Scan { used: r.used + a.len(), ..r }
        },
    decreases a.len(),
{
    if a.len() == 0 {
        assert(a + b =~= b);
    } else {
        assert((a + b)[0] == a[0]);
        assert((a + b).skip(1) =~= a.skip(1) + b);
        if !completes(p, a[0]) {
            law_scan_in_parts(take_byte(p, a[0]), a.skip(1), b);
        }
    }
}

/// Where a stream is cut into buffers makes no difference to its header: feeding two buffers
/// in turn, the second one only if the first left the header unfinished, is feeding them as
/// one.
pub proof fn law_feed_in_parts(r: Reading, a: Seq<u8>, b: Seq<u8>)
    ensures
        feed(r, a + b) == if feed(r, a).progress is Next {
            let f = feed(feed(r, a).reading, b);
            Fed { used: f.used + a.len(), ..f }
        } else {
            feed(r, a)
        },
    decreases a.len(),
{
    let s = scan(r.partial, a);
    lemma_scan_used(r.partial, a);
    lemma_scan_used(r.partial, a + b);
    law_scan_in_parts(r.partial, a, b);
    if s.done {
        if let Progress::Next(stage) = take_token(r.stage, s.partial.token) {
            law_feed_in_parts(Reading { partial: fresh(), stage }, a.skip(s.used as int), b);
            assert((a + b).skip(s.used as int) =~= a.skip(s.used as int) + b);
        }
    } else {
        let mid = Reading { partial: s.partial, stage: r.stage };
        assert(feed(r, a).reading == mid);
        let t = scan(s.partial, b);
        lemma_scan_used(s.partial, b);
        if t.done {
            assert((a + b).skip((t.used + a.len()) as int) =~= b.skip(t.used as int));
        }
    }
}

/// A header never uses up more than the buffer, and all of it unless it is complete or fails.
pub proof fn law_feed_uses_the_buffer(r: Reading, buf: Seq<u8>)
    ensures
        feed(r, buf).used <= buf.len(),
        feed(r, buf).progress is Next ==> feed(r, buf).used == buf.len(),
    decreases buf.len(),
{
    let s = scan(r.partial, buf);
    lemma_scan_used(r.partial, buf);
    if s.done {
        if let Progress::Next(stage) = take_token(r.stage, s.partial.token) {
            law_feed_uses_the_buffer(
                Reading { partial: fresh(), stage },
                buf.skip(s.used as int),
            );
        }
    }
}

/// Whether `token` holds no white space.
pub open spec fn is_solid(token: Seq<char>) -> bool {
    forall|i: int| 0 <= i < token.len() ==> (#[trigger] token[i] as u32) < 256 && !is_white(
        token[i] as u8,
    )
}

/// A token holds at least one character and no white space, wherever its bytes came from.
pub proof fn law_tokens_are_solid(p: Partial, buf: Seq<u8>)
    requires
        is_solid(p.token),
    ensures
        is_solid(scan(p, buf).partial.token),
        scan(p, buf).done ==> scan(p, buf).partial.token.len() > 0,
    decreases buf.len(),
{
    if buf.len() > 0 && !completes(p, buf[0]) {
        let q = take_byte(p, buf[0]);
        assert forall|i: int| 0 <= i < q.token.len() implies (#[trigger] q.token[i] as u32) < 256
            && !is_white(q.token[i] as u8) by {
            if i < p.token.len() {
                assert(q.token[i] == p.token[i]);
            } else {
                assert(q.token[i] == buf[0] as char);
            }
        }
        law_tokens_are_solid(q, buf.skip(1));
    }
}

/// White space before a token is read over.
pub proof fn law_space_is_skipped(b: u8, rest: Seq<u8>)
    requires
        is_white(b),
    ensures
        scan(fresh(), seq![b] + rest) == (Scan {
            used: scan(fresh(), rest).used + 1,
            ..scan(fresh(), rest)
        }),
{
    assert((seq![b] + rest).skip(1) =~= rest);
}

/// A comment before a token is read over, from its `#` to the end of the line.
pub proof fn law_comment_is_skipped(comment: Seq<u8>, rest: Seq<u8>)
    requires
        forall|i: int| 0 <= i < comment.len() ==> comment[i] != 10,
    ensures
        scan(fresh(), seq![35u8] + comment + seq![10u8] + rest) == (Scan {
            used: scan(fresh(), rest).used + comment.len() + 2,
            ..scan(fresh(), rest)
        }),
{
    let body = comment + seq![10u8] + rest;
    assert(seq![35u8] + comment + seq![10u8] + rest =~= seq![35u8] + body);
    assert((seq![35u8] + body).skip(1) =~= body);
    lemma_in_comment(comment, rest);
}

/// What may stand between tokens: a white space, or a comment with the end of its line.
pub open spec fn is_gap(gap: Seq<u8>) -> bool {
    ||| gap.len() == 1 && is_white(gap[0])
    ||| {
        &&& gap.len() >= 2
        &&& gap[0] == 35
        &&& gap.last() == 10
        &&& forall|i: int| 0 <= i < gap.len() - 1 ==> gap[i] != 10
    }
}

/// A gap where a token could begin is read over in a header.
proof fn lemma_gap_is_fed(stage: HeaderStage, gap: Seq<u8>, rest: Seq<u8>)
    requires
        is_gap(gap),
    ensures
        ({
            let r = Reading { partial: fresh(), stage };
            feed(r, gap + rest) == (Fed {
                used: feed(r, rest).used + gap.len(),
                ..feed(r, rest)
            })
        }),
{
    if gap.len() == 1 {
        law_space_is_skipped(gap[0], rest);
        assert(gap + rest =~= seq![gap[0]] + rest);
    } else {
        let comment = gap.subrange(1, gap.len() - 1);
        law_comment_is_skipped(comment, rest);
        assert(gap + rest =~= seq![35u8] + comment + seq![10u8] + rest);
    }
    let s = scan(fresh(), rest);
    lemma_scan_used(fresh(), rest);
    assert((gap + rest).skip((s.used + gap.len()) as int) =~= rest.skip(s.used as int));
}

/// White space and comments between the tokens of a header change nothing of it: put in where
/// a token could begin, a gap is used up and read over.
pub proof fn law_gaps_change_nothing(r: Reading, a: Seq<u8>, gap: Seq<u8>, b: Seq<u8>)
    requires
        is_gap(gap),
        feed(r, a).progress is Next,
        feed(r, a).reading.partial == fresh(),
    ensures
        feed(r, a + gap + b) == (Fed {
            used: feed(r, a + b).used + gap.len(),
            ..feed(r, a + b)
        }),
{
    law_feed_in_parts(r, a, b);
    law_feed_in_parts(r, a, gap + b);
    assert(a + gap + b =~= a + (gap + b));
    lemma_gap_is_fed(feed(r, a).reading.stage, gap, b);
}

/// Within a comment everything up to the end of the line is read over.
proof fn lemma_in_comment(comment: Seq<u8>, rest: Seq<u8>)
    requires
        forall|i: int| 0 <= i < comment.len() ==> comment[i] != 10,
    ensures
        scan(
            Partial { token: Seq::empty(), in_comment: true },
            comment + seq![10u8] + rest,
        ) == (Scan {
            used: scan(fresh(), rest).used + comment.len() + 1,
            ..scan(fresh(), rest)
        }),
    decreases comment.len(),
{
    let body = comment + seq![10u8] + rest;
    if comment.len() == 0 {
        assert(body =~= seq![10u8] + rest);
        assert(body.skip(1) =~= rest);
    } else {
        assert(body[0] == comment[0]);
        assert(body.skip(1) =~= comment.skip(1) + seq![10u8] + rest);
        lemma_in_comment(comment.skip(1), rest);
    }
}

/// Whether `t` can stand as a token: it is not empty, holds no white space and does not begin
/// like a comment.
pub open spec fn is_token(t: Seq<u8>) -> bool {
    &&& t.len() > 0
    &&& t[0] != 35
    &&& forall|i: int| 0 <= i < t.len() ==> !is_white(#[trigger] t[i])
}

/// The characters that a token's bytes stand for.
pub open spec fn characters(t: Seq<u8>) -> Seq<char> {
    t.map_values(|b: u8| b as char)
}

/// Bytes that are no white space join a token that has begun.
proof fn lemma_token_grows(p: Partial, t: Seq<u8>, end: u8, rest: Seq<u8>)
    requires
        !p.in_comment,
        p.token.len() > 0,
        is_white(end),
        forall|i: int| 0 <= i < t.len() ==> !is_white(#[trigger] t[i]),
    ensures
        scan(p, t + seq![end] + rest) == (Scan {
            partial: Partial { token: p.token + characters(t), in_comment: false },
            used: t.len() + 1,
            done: true,
        }),
    decreases t.len(),
{
    let all = t + seq![end] + rest;
    if t.len() == 0 {
        assert(all[0] == end);
        assert(p.token + characters(t) =~= p.token);
    } else {
        assert(all[0] == t[0]);
        assert(all.skip(1) =~= t.skip(1) + seq![end] + rest);
        let q = take_byte(p, t[0]);
        assert forall|i: int| 0 <= i < t.skip(1).len() implies !is_white(
            #[trigger] t.skip(1)[i],
        ) by {
            assert(t.skip(1)[i] == t[i + 1]);
        }
        lemma_token_grows(q, t.skip(1), end, rest);
        assert(q.token + characters(t.skip(1)) =~= p.token + characters(t));
    }
}

/// A token followed by white space is read as its characters.
pub proof fn law_token_is_read(t: Seq<u8>, end: u8, rest: Seq<u8>)
    requires
        is_token(t),
        is_white(end),
    ensures
        scan(fresh(), t + seq![end] + rest) == (Scan {
            partial: Partial { token: characters(t), in_comment: false },
            used: t.len() + 1,
            done: true,
        }),
{
    let all = t + seq![end] + rest;
    let p = fresh();
    assert(all[0] == t[0]);
    assert(all.skip(1) =~= t.skip(1) + seq![end] + rest);
    let q = take_byte(p, t[0]);
    assert(q.token =~= seq![t[0] as char]);
    assert forall|i: int| 0 <= i < t.skip(1).len() implies !is_white(#[trigger] t.skip(1)[i]) by {
        assert(t.skip(1)[i] == t[i + 1]);
    }
    lemma_token_grows(q, t.skip(1), end, rest);
    assert(q.token + characters(t.skip(1)) =~= characters(t));
}

/// A header goes on behind each of its tokens with what the token leads to.
pub proof fn law_token_is_fed(stage: HeaderStage, t: Seq<u8>, end: u8, rest: Seq<u8>)
    requires
        is_token(t),
        is_white(end),
    ensures
        feed(Reading { partial: fresh(), stage }, t + seq![end] + rest) == match take_token(
            stage,
            characters(t),
        ) {
            Progress::Next(next) => {
                let f = feed(Reading { partial: fresh(), stage: next }, rest);
                Fed { used: f.used + t.len() + 1, ..f }
            },
            progress => Fed {
                reading: Reading { partial: fresh(), stage },
                used: t.len() + 1,
                progress,
            },
        },
{
    let all = t + seq![end] + rest;
    law_token_is_read(t, end, rest);
    assert(all.skip((t.len() + 1) as int) =~= rest);
}

/// `n` in decimal, as ASCII bytes.
pub open spec fn decimal_bytes(n: u32) -> Seq<u8> {
    decimal(n as nat).map_values(|c: char| c as u8)
}

/// A number in decimal is a token and reads back as that number.
pub proof fn law_number_is_read(n: u32)
    ensures
        is_token(decimal_bytes(n)),
        characters(decimal_bytes(n)) == decimal(n as nat),
        parsed(characters(decimal_bytes(n))) == Some(n),
{
    let d = decimal(n as nat);
    let t = decimal_bytes(n);
    lemma_decimal_digits(n as nat);
    law_decimal_parses(n);
    assert forall|i: int| 0 <= i < t.len() implies {
        &&& 48 <= #[trigger] t[i] <= 57
        &&& t[i] as char == d[i]
    } by {
        assert(is_digit(d[i]));
    }
    assert(characters(t) =~= d);
}

/// A token and the white space behind it.
pub open spec fn word(t: Seq<u8>, end: u8) -> Seq<u8> {
    t + seq![end]
}

/// The header of a PPM image, with a byte of white space behind each of its four tokens.
pub open spec fn ppm_header(width: u32, height: u32, maxval: u32, ends: Seq<u8>) -> Seq<u8> {
    word(seq![80u8, 54u8], ends[0]) + word(decimal_bytes(width), ends[1]) + word(
        decimal_bytes(height),
        ends[2],
    ) + word(decimal_bytes(maxval), ends[3])
}

/// A PPM image gives its size back, as 8-bit or 16-bit RGB by its largest sample value, and
/// the bytes used up are exactly its header: what follows are the pixels.
pub proof fn law_ppm_header_is_read(
    width: u32,
    height: u32,
    maxval: u32,
    ends: Seq<u8>,
    pixels: Seq<u8>,
)
    requires
        ends.len() == 4,
        forall|i: int| 0 <= i < 4 ==> is_white(#[trigger] ends[i]),
    ensures
        ({
            let f = feed(start_of_header(), ppm_header(width, height, maxval, ends) + pixels);
            &&& f.progress == Progress::Done(
                ImageHeader {
                    width,
                    height,
                    bit_depth: if maxval <= 255 {
                        8
                    } else {
                        16
                    },
                    color_type: 2,
                },
            )
            &&& f.used == ppm_header(width, height, maxval, ends).len()
        }),
{
    let magic = seq![80u8, 54u8];
    reveal_strlit("P6");
    assert(characters(magic) =~= "P6"@);
    assert(is_token(magic));
    law_number_is_read(width);
    law_number_is_read(height);
    law_number_is_read(maxval);
    let r3 = decimal_bytes(maxval) + seq![ends[3]] + pixels;
    let r2 = decimal_bytes(height) + seq![ends[2]] + r3;
    let r1 = decimal_bytes(width) + seq![ends[1]] + r2;
    let r0 = magic + seq![ends[0]] + r1;
    assert(ppm_header(width, height, maxval, ends) + pixels =~= r0);
    law_token_is_fed(HeaderStage::Magic, magic, ends[0], r1);
    law_token_is_fed(HeaderStage::PpmWidth, decimal_bytes(width), ends[1], r2);
    law_token_is_fed(
        HeaderStage::PpmHeight { width: Some(width) },
        decimal_bytes(height),
        ends[2],
        r3,
    );
    law_token_is_fed(
        HeaderStage::PpmMaxval { width: Some(width), height: Some(height) },
        decimal_bytes(maxval),
        ends[3],
        pixels,
    );
}

/// ASCII for `P7`.
pub open spec fn pam_magic() -> Seq<u8> {
    seq![80u8, 55u8]
}

/// ASCII for `WIDTH`.
pub open spec fn width_word() -> Seq<u8> {
    seq![87u8, 73u8, 68u8, 84u8, 72u8]
}

/// ASCII for `HEIGHT`.
pub open spec fn height_word() -> Seq<u8> {
    seq![72u8, 69u8, 73u8, 71u8, 72u8, 84u8]
}

/// ASCII for `DEPTH`.
pub open spec fn depth_word() -> Seq<u8> {
    seq![68u8, 69u8, 80u8, 84u8, 72u8]
}

/// ASCII for `MAXVAL`.
pub open spec fn maxval_word() -> Seq<u8> {
    seq![77u8, 65u8, 88u8, 86u8, 65u8, 76u8]
}

/// ASCII for `TUPLTYPE`.
pub open spec fn tupltype_word() -> Seq<u8> {
    seq![84u8, 85u8, 80u8, 76u8, 84u8, 89u8, 80u8, 69u8]
}

/// ASCII for `ENDHDR`.
pub open spec fn end_word() -> Seq<u8> {
    seq![69u8, 78u8, 68u8, 72u8, 68u8, 82u8]
}

/// A keyword and its value, each on a word of its own.
pub open spec fn entry(key: Seq<u8>, value: Seq<u8>) -> Seq<u8> {
    word(key, 32) + word(value, 10)
}

/// The header of a PAM image: a line for each entry, the tuple type `kind` last.
pub open spec fn pam_header(
    width: u32,
    height: u32,
    depth: u32,
    maxval: u32,
    kind: Seq<u8>,
) -> Seq<u8> {
    word(pam_magic(), 10) + (entry(width_word(), decimal_bytes(width)) + (entry(
        height_word(),
        decimal_bytes(height),
    ) + (entry(depth_word(), decimal_bytes(depth)) + (entry(maxval_word(), decimal_bytes(maxval))
        + (entry(tupltype_word(), kind) + word(end_word(), 10))))))
}

/// The words of a PAM header are tokens, and each means what it should.
pub(crate) proof fn lemma_pam_words()
    ensures
        is_token(pam_magic()),
        is_token(width_word()),
        is_token(height_word()),
        is_token(depth_word()),
        is_token(maxval_word()),
        is_token(tupltype_word()),
        is_token(end_word()),
        characters(end_word()) == "ENDHDR"@,
        take_token(HeaderStage::Magic, characters(pam_magic())) == Progress::Next(
            HeaderStage::PamEntry { fields: no_fields() },
        ),
        characters(width_word()) != "ENDHDR"@,
        characters(height_word()) != "ENDHDR"@,
        characters(depth_word()) != "ENDHDR"@,
        characters(maxval_word()) != "ENDHDR"@,
        characters(tupltype_word()) != "ENDHDR"@,
        key_for(characters(width_word())) == Some(PamKey::Width),
        key_for(characters(height_word())) == Some(PamKey::Height),
        key_for(characters(depth_word())) == Some(PamKey::Depth),
        key_for(characters(maxval_word())) == Some(PamKey::Maxval),
        key_for(characters(tupltype_word())) == Some(PamKey::Tupltype),
{
    reveal_strlit("P6");
    reveal_strlit("P7");
    reveal_strlit("WIDTH");
    reveal_strlit("HEIGHT");
    reveal_strlit("DEPTH");
    reveal_strlit("MAXVAL");
    reveal_strlit("TUPLTYPE");
    reveal_strlit("ENDHDR");
    assert(characters(pam_magic()) =~= "P7"@);
    assert(characters(pam_magic())[1] == '7');
    assert("P6"@[1] == '6');
    assert(characters(width_word()) =~= "WIDTH"@);
    assert(characters(height_word()) =~= "HEIGHT"@);
    assert(characters(depth_word()) =~= "DEPTH"@);
    assert(characters(maxval_word()) =~= "MAXVAL"@);
    assert(characters(tupltype_word()) =~= "TUPLTYPE"@);
    assert(characters(end_word()) =~= "ENDHDR"@);
    assert("WIDTH"@[0] == 'W');
    assert("HEIGHT"@[0] == 'H');
    assert("DEPTH"@[0] == 'D');
    assert("MAXVAL"@[0] == 'M');
    assert("TUPLTYPE"@[0] == 'T');
    assert("ENDHDR"@[0] == 'E');
}

/// An entry with its value goes into the fields.
pub(crate) proof fn lemma_entry_is_fed(
    fields: PamFields,
    word_bytes: Seq<u8>,
    key: PamKey,
    value: Seq<u8>,
    after: PamFields,
    rest: Seq<u8>,
)
    requires
        is_token(word_bytes),
        is_token(value),
        characters(word_bytes) != "ENDHDR"@,
        key_for(characters(word_bytes)) == Some(key),
        take_token(HeaderStage::PamValue { fields, key }, characters(value)) == Progress::Next(
            HeaderStage::PamEntry { fields: after },
        ),
    ensures
        ({
            let f = feed(
                Reading { partial: fresh(), stage: HeaderStage::PamEntry { fields: after } },
                rest,
            );
            feed(
                Reading { partial: fresh(), stage: HeaderStage::PamEntry { fields } },
                entry(word_bytes, value) + rest,
            ) == (Fed { used: f.used + entry(word_bytes, value).len(), ..f })
        }),
{
    let tail = value + seq![10u8] + rest;
    assert(entry(word_bytes, value) + rest =~= word_bytes + seq![32u8] + tail);
    law_token_is_fed(HeaderStage::PamEntry { fields }, word_bytes, 32, tail);
    law_token_is_fed(HeaderStage::PamValue { fields, key }, value, 10, rest);
}

/// A PAM image with one to four channels gives its size back, with the color type that the
/// channels call for, and the bytes used up are exactly its header. The tuple type plays no
/// part.
pub proof fn law_pam_header_is_read(
    width: u32,
    height: u32,
    depth: u32,
    maxval: u32,
    kind: Seq<u8>,
    pixels: Seq<u8>,
)
    requires
        1 <= depth <= 4,
        is_token(kind),
    ensures
        ({
            let header = pam_header(width, height, depth, maxval, kind);
            let f = feed(start_of_header(), header + pixels);
            &&& f.progress == Progress::Done(
                ImageHeader {
                    width,
                    height,
                    bit_depth: if maxval <= 255 {
                        8
                    } else {
                        16
                    },
                    color_type: if depth == 1 {
                        0
                    } else if depth == 2 {
                        4
                    } else if depth == 3 {
                        2
                    } else {
                        6
                    },
                },
            )
            &&& f.used == header.len()
        }),
{
    lemma_pam_words();
    law_number_is_read(width);
    law_number_is_read(height);
    law_number_is_read(depth);
    law_number_is_read(maxval);
    let f0 = no_fields();
    let f1 = PamFields { width: Some(width), ..f0 };
    let f2 = PamFields { height: Some(height), ..f1 };
    let f3 = PamFields { depth: Some(depth), ..f2 };
    let f4 = PamFields { maxval: Some(maxval), ..f3 };
    let e1 = entry(width_word(), decimal_bytes(width));
    let e2 = entry(height_word(), decimal_bytes(height));
    let e3 = entry(depth_word(), decimal_bytes(depth));
    let e4 = entry(maxval_word(), decimal_bytes(maxval));
    let e5 = entry(tupltype_word(), kind);
    let r5 = end_word() + seq![10u8] + pixels;
    let r4 = e5 + r5;
    let r3 = e4 + r4;
    let r2 = e3 + r3;
    let r1 = e2 + r2;
    let r0 = e1 + r1;
    let header = pam_header(width, height, depth, maxval, kind);
    assert(header + pixels =~= pam_magic() + seq![10u8] + r0);
    law_token_is_fed(HeaderStage::Magic, pam_magic(), 10, r0);
    lemma_entry_is_fed(f0, width_word(), PamKey::Width, decimal_bytes(width), f1, r1);
    lemma_entry_is_fed(f1, height_word(), PamKey::Height, decimal_bytes(height), f2, r2);
    lemma_entry_is_fed(f2, depth_word(), PamKey::Depth, decimal_bytes(depth), f3, r3);
    lemma_entry_is_fed(f3, maxval_word(), PamKey::Maxval, decimal_bytes(maxval), f4, r4);
    lemma_entry_is_fed(f4, tupltype_word(), PamKey::Tupltype, kind, f4, r5);
    law_token_is_fed(HeaderStage::PamEntry { fields: f4 }, end_word(), 10, pixels);
}

} // verus!

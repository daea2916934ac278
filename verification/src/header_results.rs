//! What comes of a header, whatever its tokens are: the image, or what is wrong with it.
use crate::header::{
    feed, feed_end, fresh, key_for, no_fields, scan, start_of_header, take_token, Failure, Fed,
    HeaderErrorKind, HeaderProgress, HeaderStage, PamFields, PamKey, Partial, Progress, Reading,
};
use crate::header_laws::{
    characters, depth_word, end_word, entry, height_word, is_token, is_white, law_feed_in_parts,
    law_token_is_fed, lemma_entry_is_fed, lemma_pam_words, maxval_word, pam_magic, tupltype_word,
    width_word, word,
};
use crate::text::{decimal, parsed};
use vstd::prelude::*;
use vstd::string::*;

verus! {

/// What a token leads to is what it is seen as, with kind and message of a failure.
pub proof fn law_progress_is_seen_whole(p: HeaderProgress)
    ensures
        p matches HeaderProgress::Next(stage) ==> p@ == Progress::Next(stage),
        p matches HeaderProgress::Done(image) ==> p@ == Progress::Done(image),
        p matches HeaderProgress::Failed(e) ==> p@ == Progress::Failed(
            Failure { kind: e.kind, message: e.message@ },
        ),
{
}

/// Whether reading failed over what the header says, with this message.
pub open spec fn fails_with(progress: Progress, message: Seq<char>) -> bool {
    progress == Progress::Failed(Failure { kind: HeaderErrorKind::InvalidData, message })
}

/// A header that begins neither with `P6` nor with `P7` is refused, and the message names what
/// stood there.
pub proof fn law_other_formats_are_refused(t: Seq<u8>, end: u8, rest: Seq<u8>)
    requires
        is_token(t),
        is_white(end),
        t != seq![80u8, 54u8],
        t != seq![80u8, 55u8],
    ensures
        fails_with(
            feed(start_of_header(), t + seq![end] + rest).progress,
            "Expected P6 (PPM) or P7 (PAM) format, got: "@ + characters(t),
        ),
{
    reveal_strlit("P6");
    reveal_strlit("P7");
    law_token_is_fed(HeaderStage::Magic, t, end, rest);
    if characters(t) == "P6"@ || characters(t) == "P7"@ {
        let c = characters(t);
        assert(c.len() == 2);
        assert(c[0] == t[0] as char && c[1] == t[1] as char);
        assert(t =~= seq![80u8, 54u8] || t =~= seq![80u8, 55u8]);
    }
}

/// What comes of a PPM header with three tokens behind `P6`, whatever they are. The first that
/// is no 32-bit number is named; otherwise samples up to 255 take 8 bits and others 16.
pub proof fn law_ppm_result(w: Seq<u8>, h: Seq<u8>, m: Seq<u8>, ends: Seq<u8>, pixels: Seq<u8>)
    requires
        is_token(w),
        is_token(h),
        is_token(m),
        ends.len() == 4,
        forall|i: int| 0 <= i < 4 ==> is_white(#[trigger] ends[i]),
    ensures
        ({
            let header = word(seq![80u8, 54u8], ends[0]) + word(w, ends[1]) + word(h, ends[2])
                + word(m, ends[3]);
            let f = feed(start_of_header(), header + pixels);
            let (a, b, c) = (
                parsed(characters(w)),
                parsed(characters(h)),
                parsed(characters(m)),
            );
            &&& f.used == header.len()
            &&& a is None ==> fails_with(f.progress, "Invalid PPM width"@)
            &&& a is Some && b is None ==> fails_with(f.progress, "Invalid PPM height"@)
            &&& a is Some && b is Some && c is None ==> fails_with(
                f.progress,
                "Invalid PPM maxval"@,
            )
            &&& a is Some && b is Some && c is Some ==> {
                f.progress matches Progress::Done(image) && {
                    &&& image.width == a.unwrap()
                    &&& image.height == b.unwrap()
                    &&& image.bit_depth == 8 <==> c.unwrap() <= 255
                    &&& image.bit_depth == 16 <==> c.unwrap() >= 256
                    &&& image.color_type == 2
                }
            }
        }),
{
    let magic = seq![80u8, 54u8];
    reveal_strlit("P6");
    assert(characters(magic) =~= "P6"@);
    assert(is_token(magic));
    let (a, b) = (parsed(characters(w)), parsed(characters(h)));
    let r3 = m + seq![ends[3]] + pixels;
    let r2 = h + seq![ends[2]] + r3;
    let r1 = w + seq![ends[1]] + r2;
    let header = word(magic, ends[0]) + word(w, ends[1]) + word(h, ends[2]) + word(m, ends[3]);
    assert(header + pixels =~= magic + seq![ends[0]] + r1);
    law_token_is_fed(HeaderStage::Magic, magic, ends[0], r1);
    law_token_is_fed(HeaderStage::PpmWidth, w, ends[1], r2);
    law_token_is_fed(HeaderStage::PpmHeight { width: a }, h, ends[2], r3);
    law_token_is_fed(HeaderStage::PpmMaxval { width: a, height: b }, m, ends[3], pixels);
}

/// The end of the stream completes a token as white space does; without one the header is cut
/// off.
pub proof fn law_end_of_stream(token: Seq<char>, in_comment: bool, stage: HeaderStage)
    ensures
        token.len() == 0 ==> feed_end(
            Reading { partial: Partial { token, in_comment }, stage },
        ).progress == Progress::Failed(
            Failure {
                kind: HeaderErrorKind::UnexpectedEof,
                message: "Unexpected EOF reading header"@,
            },
        ),
        token.len() > 0 ==> {
            let r = Reading { partial: Partial { token, in_comment: false }, stage };
            &&& feed_end(r).progress == feed(r, seq![32u8]).progress
            &&& feed_end(r).reading == feed(r, seq![32u8]).reading
            &&& feed_end(r).used == 0
        },
{
    if token.len() > 0 {
        let p = Partial { token, in_comment: false };
        let r = Reading { partial: p, stage };
        assert(scan(p, seq![32u8]).done);
        assert(seq![32u8].skip(1) =~= Seq::empty());
        if let Progress::Next(next) = take_token(stage, token) {
            let none = Seq::<u8>::empty();
            assert(scan(fresh(), none).done == false);
            assert(feed(Reading { partial: fresh(), stage: next }, none).progress == Progress::Next(
                next,
            ));
        }
    }
}

/// A piece of a PAM header.
pub enum PamItem {
    /// A keyword with its value.
    Entry { key: Seq<u8>, value: Seq<u8> },
    /// A word that is no keyword.
    Other { text: Seq<u8> },
}

/// The piece as it stands in the header.
pub open spec fn item_text(item: PamItem) -> Seq<u8> {
    match item {
        PamItem::Entry { key, value } => entry(key, value),
        PamItem::Other { text } => word(text, 10),
    }
}

/// Whether `text` is one of the words that mean something in a PAM header.
pub open spec fn is_pam_word(text: Seq<u8>) -> bool {
    text == width_word() || text == height_word() || text == depth_word() || text == maxval_word()
        || text == tupltype_word() || text == end_word()
}

/// Whether the piece can be read over or noted: the four numbers are 32-bit numbers, and the
/// tuple type is any token.
pub open spec fn is_proper(item: PamItem) -> bool {
    match item {
        PamItem::Entry { key, value } => {
            &&& is_token(value)
            &&& is_pam_word(key) && key != end_word()
            &&& key != tupltype_word() ==> parsed(characters(value)) is Some
        },
        PamItem::Other { text } => is_token(text) && !is_pam_word(text),
    }
}

/// The header up to here.
pub open spec fn items_text(items: Seq<PamItem>) -> Seq<u8>
    decreases items.len(),
{
    if items.len() == 0 {
        Seq::empty()
    } else {
        items_text(items.drop_last()) + item_text(items.last())
    }
}

/// The number that the last entry with this keyword gave.
pub open spec fn last_value(items: Seq<PamItem>, keyword: Seq<u8>) -> Option<u32>
    decreases items.len(),
{
    if items.len() == 0 {
        None
    } else {
        match items.last() {
            PamItem::Entry { key, value } => if key == keyword {
                parsed(characters(value))
            } else {
                last_value(items.drop_last(), keyword)
            },
            PamItem::Other { .. } => last_value(items.drop_last(), keyword),
        }
    }
}

/// What the entries so far said.
spec fn fields_of(items: Seq<PamItem>) -> PamFields {
    PamFields {
        width: last_value(items, width_word()),
        height: last_value(items, height_word()),
        depth: last_value(items, depth_word()),
        maxval: last_value(items, maxval_word()),
    }
}

/// The state in which the entries of a PAM header are read.
spec fn at_entry(fields: PamFields) -> Reading {
    Reading { partial: fresh(), stage: HeaderStage::PamEntry { fields } }
}

/// Two tokens with the same characters are the same.
proof fn lemma_characters_differ(a: Seq<u8>, b: Seq<u8>)
    requires
        characters(a) == characters(b),
    ensures
        a == b,
{
    assert(a.len() == characters(a).len());
    assert forall|i: int| 0 <= i < a.len() implies a[i] == b[i] by {
        assert(characters(a)[i] == a[i] as char);
        assert(characters(b)[i] == b[i] as char);
    }
    assert(a =~= b);
}

/// A word that is no keyword opens no entry.
proof fn lemma_other_word(text: Seq<u8>)
    requires
        !is_pam_word(text),
    ensures
        characters(text) != "ENDHDR"@,
        key_for(characters(text)) is None,
{
    lemma_pam_words();
    lemma_pam_spelling();
    if characters(text) == characters(end_word()) {
        lemma_characters_differ(text, end_word());
    }
    if characters(text) == characters(width_word()) {
        lemma_characters_differ(text, width_word());
    }
    if characters(text) == characters(height_word()) {
        lemma_characters_differ(text, height_word());
    }
    if characters(text) == characters(depth_word()) {
        lemma_characters_differ(text, depth_word());
    }
    if characters(text) == characters(maxval_word()) {
        lemma_characters_differ(text, maxval_word());
    }
    if characters(text) == characters(tupltype_word()) {
        lemma_characters_differ(text, tupltype_word());
    }
}

/// How the keywords are spelt, and that no two are the same.
proof fn lemma_pam_spelling()
    ensures
        characters(width_word()) == "WIDTH"@,
        characters(height_word()) == "HEIGHT"@,
        characters(depth_word()) == "DEPTH"@,
        characters(maxval_word()) == "MAXVAL"@,
        characters(tupltype_word()) == "TUPLTYPE"@,
        width_word()[0] == 87,
        height_word()[0] == 72,
        depth_word()[0] == 68,
        maxval_word()[0] == 77,
        tupltype_word()[0] == 84,
        end_word()[0] == 69,
{
    reveal_strlit("WIDTH");
    reveal_strlit("HEIGHT");
    reveal_strlit("DEPTH");
    reveal_strlit("MAXVAL");
    reveal_strlit("TUPLTYPE");
    assert(characters(width_word()) =~= "WIDTH"@);
    assert(characters(height_word()) =~= "HEIGHT"@);
    assert(characters(depth_word()) =~= "DEPTH"@);
    assert(characters(maxval_word()) =~= "MAXVAL"@);
    assert(characters(tupltype_word()) =~= "TUPLTYPE"@);
}

/// A proper piece goes into the fields.
proof fn lemma_item_is_fed(items: Seq<PamItem>)
    requires
        items.len() > 0,
        is_proper(items.last()),
    ensures
        ({
            let f = feed(at_entry(fields_of(items.drop_last())), item_text(items.last()));
            &&& f.progress is Next
            &&& f.reading == at_entry(fields_of(items))
            &&& f.used == item_text(items.last()).len()
        }),
{
    let before = fields_of(items.drop_last());
    let after = fields_of(items);
    let none = Seq::<u8>::empty();
    lemma_pam_words();
    lemma_pam_spelling();
    assert(scan(fresh(), none).done == false);
    assert(scan(fresh(), none).used == 0);
    let text = item_text(items.last());
    assert(text =~= text + none);
    match items.last() {
        PamItem::Entry { key, value } => {
            let k = if key == width_word() {
                PamKey::Width
            } else if key == height_word() {
                PamKey::Height
            } else if key == depth_word() {
                PamKey::Depth
            } else if key == maxval_word() {
                PamKey::Maxval
            } else {
                PamKey::Tupltype
            };
            assert(key_for(characters(key)) == Some(k));
            lemma_entry_is_fed(before, key, k, value, after, none);
        },
        PamItem::Other { text: t } => {
            lemma_other_word(t);
            assert(text + none =~= t + seq![10u8] + none);
            law_token_is_fed(HeaderStage::PamEntry { fields: before }, t, 10, none);
        },
    }
}

/// The entries of a PAM header are all read, in any order, and of those with the same keyword
/// the last one counts.
proof fn lemma_items_are_fed(items: Seq<PamItem>)
    requires
        forall|i: int| 0 <= i < items.len() ==> is_proper(#[trigger] items[i]),
    ensures
        ({
            let f = feed(at_entry(no_fields()), items_text(items));
            &&& f.progress is Next
            &&& f.reading == at_entry(fields_of(items))
            &&& f.used == items_text(items).len()
        }),
    decreases items.len(),
{
    if items.len() == 0 {
        let none = Seq::<u8>::empty();
        assert(scan(fresh(), none).done == false);
        assert(items_text(items) == none);
    } else {
        let most = items.drop_last();
        assert forall|i: int| 0 <= i < most.len() implies is_proper(#[trigger] most[i]) by {
            assert(most[i] == items[i]);
        }
        assert(is_proper(items[items.len() - 1]));
        lemma_items_are_fed(most);
        lemma_item_is_fed(items);
        law_feed_in_parts(at_entry(no_fields()), items_text(most), item_text(items.last()));
    }
}

/// A PAM header up to its entries.
proof fn lemma_pam_begins(items: Seq<PamItem>, rest: Seq<u8>)
    requires
        forall|i: int| 0 <= i < items.len() ==> is_proper(#[trigger] items[i]),
    ensures
        ({
            let text = word(pam_magic(), 10) + items_text(items);
            let f = feed(at_entry(fields_of(items)), rest);
            feed(start_of_header(), text + rest) == (Fed { used: f.used + text.len(), ..f })
        }),
{
    lemma_pam_words();
    lemma_items_are_fed(items);
    let body = items_text(items);
    law_token_is_fed(HeaderStage::Magic, pam_magic(), 10, body + rest);
    assert(word(pam_magic(), 10) + body + rest =~= pam_magic() + seq![10u8] + (body + rest));
    law_feed_in_parts(at_entry(no_fields()), body, rest);
}

/// What comes of a complete PAM header, with entries in any order and words that mean nothing
/// among them. Of entries with the same keyword the last one counts. The first that is missing
/// is named; otherwise the number of channels gives the color type, and samples up to 255 take
/// 8 bits and others 16.
pub proof fn law_pam_result(items: Seq<PamItem>, end: u8, pixels: Seq<u8>)
    requires
        forall|i: int| 0 <= i < items.len() ==> is_proper(#[trigger] items[i]),
        is_white(end),
    ensures
        ({
            let header = word(seq![80u8, 55u8], 10) + items_text(items) + word(end_word(), end);
            let f = feed(start_of_header(), header + pixels);
            let w = last_value(items, width_word());
            let h = last_value(items, height_word());
            let d = last_value(items, depth_word());
            let m = last_value(items, maxval_word());
            &&& f.used == header.len()
            &&& w is None ==> fails_with(f.progress, "PAM missing WIDTH"@)
            &&& w is Some && h is None ==> fails_with(f.progress, "PAM missing HEIGHT"@)
            &&& w is Some && h is Some && d is None ==> fails_with(
                f.progress,
                "PAM missing DEPTH"@,
            )
            &&& w is Some && h is Some && d is Some && m is None ==> fails_with(
                f.progress,
                "PAM missing MAXVAL"@,
            )
            &&& w is Some && h is Some && d is Some && m is Some ==> if 1 <= d.unwrap() <= 4 {
                f.progress matches Progress::Done(image) && {
                    &&& image.width == w.unwrap()
                    &&& image.height == h.unwrap()
                    &&& image.bit_depth == 8 <==> m.unwrap() <= 255
                    &&& image.bit_depth == 16 <==> m.unwrap() >= 256
                    &&& d.unwrap() == 1 <==> image.color_type == 0
                    &&& d.unwrap() == 2 <==> image.color_type == 4
                    &&& d.unwrap() == 3 <==> image.color_type == 2
                    &&& d.unwrap() == 4 <==> image.color_type == 6
                }
            } else {
                fails_with(f.progress, "Unsupported PAM DEPTH: "@ + decimal(d.unwrap() as nat))
            }
        }),
{
    lemma_pam_words();
    let text = word(pam_magic(), 10) + items_text(items);
    let rest = end_word() + seq![end] + pixels;
    let header = text + word(end_word(), end);
    assert(header + pixels =~= text + rest);
    lemma_pam_begins(items, rest);
    law_token_is_fed(HeaderStage::PamEntry { fields: fields_of(items) }, end_word(), end, pixels);
}

/// A PAM entry whose number is none is named, whatever came before.
pub proof fn law_pam_number_is_checked(
    items: Seq<PamItem>,
    key: Seq<u8>,
    value: Seq<u8>,
    pixels: Seq<u8>,
)
    requires
        forall|i: int| 0 <= i < items.len() ==> is_proper(#[trigger] items[i]),
        key == width_word() || key == height_word() || key == depth_word() || key
            == maxval_word(),
        is_token(value),
        parsed(characters(value)) is None,
    ensures
        ({
            let header = word(seq![80u8, 55u8], 10) + items_text(items) + entry(key, value);
            let f = feed(start_of_header(), header + pixels);
            &&& f.used == header.len()
            &&& key == width_word() ==> fails_with(f.progress, "Invalid PAM WIDTH"@)
            &&& key == height_word() ==> fails_with(f.progress, "Invalid PAM HEIGHT"@)
            &&& key == depth_word() ==> fails_with(f.progress, "Invalid PAM DEPTH"@)
            &&& key == maxval_word() ==> fails_with(f.progress, "Invalid PAM MAXVAL"@)
        }),
{
    lemma_pam_words();
    lemma_pam_spelling();
    let fields = fields_of(items);
    let text = word(pam_magic(), 10) + items_text(items);
    let tail = value + seq![10u8] + pixels;
    let rest = key + seq![32u8] + tail;
    let header = text + entry(key, value);
    assert(header + pixels =~= text + rest);
    lemma_pam_begins(items, rest);
    let k = if key == width_word() {
        PamKey::Width
    } else if key == height_word() {
        PamKey::Height
    } else if key == depth_word() {
        PamKey::Depth
    } else {
        PamKey::Maxval
    };
    assert(key_for(characters(key)) == Some(k));
    law_token_is_fed(HeaderStage::PamEntry { fields }, key, 32, tail);
    law_token_is_fed(HeaderStage::PamValue { fields, key: k }, value, 10, pixels);
}

} // verus!

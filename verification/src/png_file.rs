//! The layout of a PNG file, and how a reader takes one apart.
use crate::chunk::{
    be_bytes, be_value, chunk, law_be_bytes_read_back, law_chunk_reads_back, push_all, push_be,
    read_chunk, ReadChunk, IDAT, IEND, IHDR, PNG_MAGIC,
};
use vstd::prelude::*;

verus! {

/// The data of the header chunk.
pub open spec fn ihdr_data(width: u32, height: u32, bit_depth: u8, color_type: u8) -> Seq<u8> {
    be_bytes(width) + be_bytes(height) + seq![bit_depth, color_type, 0u8, 0u8, 0u8]
}

/// What stands before the image data: the signature and the header chunk.
pub open spec fn file_start(width: u32, height: u32, bit_depth: u8, color_type: u8) -> Seq<u8> {
    PNG_MAGIC@ + chunk(IHDR@, ihdr_data(width, height, bit_depth, color_type))
}

/// All pieces one behind the other.
pub open spec fn joined(pieces: Seq<Seq<u8>>) -> Seq<u8>
    decreases pieces.len(),
{
    if pieces.len() == 0 {
        Seq::empty()
    } else {
        joined(pieces.drop_last()) + pieces.last()
    }
}

/// `stream` cut into pieces of `size` bytes, of which the last may be shorter.
pub open spec fn cut(stream: Seq<u8>, size: nat) -> Seq<Seq<u8>>
    decreases stream.len(),
{
    if stream.len() == 0 || size == 0 {
        Seq::empty()
    } else if stream.len() <= size {
        seq![stream]
    } else {
        seq![stream.take(size as int)] + cut(stream.skip(size as int), size)
    }
}

/// An IDAT chunk for each of the payloads.
pub open spec fn idat_chunks(payloads: Seq<Seq<u8>>) -> Seq<u8>
    decreases payloads.len(),
{
    if payloads.len() == 0 {
        Seq::empty()
    } else {
        idat_chunks(payloads.drop_last()) + chunk(IDAT@, payloads.last())
    }
}

/// The chunk that ends a file.
pub open spec fn end_chunk() -> Seq<u8> {
    chunk(IEND@, Seq::empty())
}

/// A whole file: signature, header, image data, end.
pub open spec fn png_file(
    width: u32,
    height: u32,
    bit_depth: u8,
    color_type: u8,
    payloads: Seq<Seq<u8>>,
) -> Seq<u8> {
    file_start(width, height, bit_depth, color_type) + idat_chunks(payloads) + end_chunk()
}

/// What a reader learns from a file: the header's fields and the compressed image.
pub struct ReadPng {
    pub width: nat,
    pub height: nat,
    pub bit_depth: u8,
    pub color_type: u8,
    pub compressed: Seq<u8>,
}

/// Collects the data of IDAT chunks up to the end chunk, behind which nothing may follow.
pub open spec fn read_image_data(bytes: Seq<u8>) -> Option<Seq<u8>>
    decreases bytes.len(),
{
    match read_chunk(bytes) {
        None => None,
        Some(c) => if c.chunk_type == seq![73u8, 68u8, 65u8, 84u8] {
            match read_image_data(c.rest) {
                None => None,
                Some(data) => Some(c.data + data),
            }
        } else if c.chunk_type == seq![73u8, 69u8, 78u8, 68u8] && c.data.len() == 0
            && c.rest.len() == 0 {
            Some(Seq::empty())
        } else {
            None
        },
    }
}

/// Reads a file with the chunks of this encoder: signature, IHDR, any number of IDAT, IEND.
pub open spec fn read_png(bytes: Seq<u8>) -> Option<ReadPng> {
    if bytes.len() < 8 || bytes.take(8) != seq![137u8, 80u8, 78u8, 71u8, 13u8, 10u8, 26u8, 10u8] {
        None
    } else {
        match read_chunk(bytes.skip(8)) {
            None => None,
            Some(c) => if c.chunk_type == seq![73u8, 72u8, 68u8, 82u8] && c.data.len() == 13
                && c.data.skip(10) == seq![0u8, 0u8, 0u8] {
                match read_image_data(c.rest) {
                    None => None,
                    Some(compressed) => Some(
                        ReadPng {
                            width: be_value(c.data),
                            height: be_value(c.data.skip(4)),
                            bit_depth: c.data[8],
                            color_type: c.data[9],
                            compressed,
                        },
                    ),
                }
            } else {
                None
            },
        }
    }
}

/// The first of several payloads comes first.
proof fn lemma_idat_front(payloads: Seq<Seq<u8>>)
    requires
        payloads.len() > 0,
    ensures
        idat_chunks(payloads) == chunk(IDAT@, payloads[0]) + idat_chunks(payloads.skip(1)),
        joined(payloads) == payloads[0] + joined(payloads.skip(1)),
    decreases payloads.len(),
{
    if payloads.len() == 1 {
        assert(payloads.drop_last() =~= Seq::empty());
        assert(payloads.skip(1) =~= Seq::empty());
        assert(idat_chunks(payloads) =~= chunk(IDAT@, payloads[0]) + idat_chunks(
            payloads.skip(1),
        ));
        assert(joined(payloads) =~= payloads[0] + joined(payloads.skip(1)));
    } else {
        lemma_idat_front(payloads.drop_last());
        assert(payloads.drop_last().skip(1) =~= payloads.skip(1).drop_last());
        assert(idat_chunks(payloads) =~= chunk(IDAT@, payloads[0]) + idat_chunks(
            payloads.skip(1),
        ));
        assert(joined(payloads) =~= payloads[0] + joined(payloads.skip(1)));
    }
}

/// Pieces of which none is empty and all but the last have the full size are a stream cut into
/// pieces of that size.
pub proof fn law_pieces_are_the_cut(pieces: Seq<Seq<u8>>, size: nat)
    requires
        forall|i: int| 0 <= i < pieces.len() ==> 0 < (#[trigger] pieces[i]).len() <= size,
        forall|i: int| 0 <= i < pieces.len() - 1 ==> (#[trigger] pieces[i]).len() == size,
    ensures
        pieces == cut(joined(pieces), size),
    decreases pieces.len(),
{
    if pieces.len() == 0 {
        assert(pieces =~= cut(joined(pieces), size));
    } else {
        let rest = pieces.skip(1);
        let stream = joined(pieces);
        assert forall|i: int| 0 <= i < rest.len() implies 0 < (#[trigger] rest[i]).len()
            <= size by {
            assert(rest[i] == pieces[i + 1]);
        }
        assert forall|i: int| 0 <= i < rest.len() - 1 implies (#[trigger] rest[i]).len()
            == size by {
            assert(rest[i] == pieces[i + 1]);
        }
        law_pieces_are_the_cut(rest, size);
        lemma_idat_front(pieces);
        if rest.len() == 0 {
            assert(stream =~= pieces[0]);
        } else {
            lemma_idat_front(rest);
            assert(rest[0] == pieces[1]);
            assert(stream.len() > size);
            assert(stream.take(size as int) =~= pieces[0]);
            assert(stream.skip(size as int) =~= joined(rest));
        }
        assert(pieces =~= cut(stream, size));
    }
}

/// A stream cut into pieces: the pieces make up the stream, none is empty or too large, all but
/// the last have the full size, and there is one if there is anything to cut.
pub proof fn law_cut_is_exact(stream: Seq<u8>, size: nat)
    requires
        size > 0,
    ensures
        joined(cut(stream, size)) == stream,
        stream.len() > 0 ==> cut(stream, size).len() >= 1,
        forall|i: int|
            0 <= i < cut(stream, size).len() ==> 0 < (#[trigger] cut(stream, size)[i]).len()
                <= size,
        forall|i: int|
            0 <= i < cut(stream, size).len() - 1 ==> (#[trigger] cut(stream, size)[i]).len()
                == size,
    decreases stream.len(),
{
    let pieces = cut(stream, size);
    if stream.len() == 0 {
        assert(joined(pieces) =~= stream);
    } else if stream.len() <= size {
        assert(pieces.drop_last() =~= Seq::empty());
        assert(pieces.last() == stream);
        assert(joined(pieces.drop_last()) =~= Seq::empty());
        assert(joined(pieces) =~= stream);
    } else {
        let rest = stream.skip(size as int);
        law_cut_is_exact(rest, size);
        lemma_idat_front(pieces);
        assert(pieces.skip(1) =~= cut(rest, size));
        assert(joined(pieces) =~= stream);
        assert forall|i: int| 0 <= i < pieces.len() implies 0 < (#[trigger] pieces[i]).len()
            <= size by {
            if i > 0 {
                assert(pieces[i] == cut(rest, size)[i - 1]);
            }
        }
        assert forall|i: int| 0 <= i < pieces.len() - 1 implies (#[trigger] pieces[i]).len()
            == size by {
            if i > 0 {
                assert(pieces[i] == cut(rest, size)[i - 1]);
            }
        }
    }
}

/// A reader that finds an IDAT chunk goes on behind it.
proof fn lemma_reads_idat(payload: Seq<u8>, rest: Seq<u8>, data: Seq<u8>)
    requires
        payload.len() <= u32::MAX,
        read_image_data(rest) == Some(data),
    ensures
        read_image_data(chunk(IDAT@, payload) + rest) == Some(payload + data),
{
    assert(IDAT@ =~= seq![73u8, 68u8, 65u8, 84u8]);
    law_chunk_reads_back(IDAT@, payload, rest);
}

/// A reader that finds the end chunk is done.
proof fn lemma_reads_end()
    ensures
        read_image_data(end_chunk()) == Some(Seq::<u8>::empty()),
{
    let none = Seq::<u8>::empty();
    assert(IDAT@ =~= seq![73u8, 68u8, 65u8, 84u8]);
    assert(IEND@ =~= seq![73u8, 69u8, 78u8, 68u8]);
    assert(IEND@[1] != IDAT@[1]);
    law_chunk_reads_back(IEND@, none, none);
    assert(end_chunk() =~= end_chunk() + none);
}

/// The image data reads back as the payloads one behind the other.
proof fn lemma_image_data_reads_back(payloads: Seq<Seq<u8>>)
    requires
        forall|i: int| 0 <= i < payloads.len() ==> (#[trigger] payloads[i]).len() <= u32::MAX,
    ensures
        read_image_data(idat_chunks(payloads) + end_chunk()) == Some(joined(payloads)),
    decreases payloads.len(),
{
    if payloads.len() == 0 {
        lemma_reads_end();
        assert(idat_chunks(payloads) + end_chunk() =~= end_chunk());
    } else {
        let others = payloads.skip(1);
        let rest = idat_chunks(others) + end_chunk();
        assert forall|i: int| 0 <= i < others.len() implies (#[trigger] others[i]).len()
            <= u32::MAX by {
            assert(others[i] == payloads[i + 1]);
        }
        lemma_image_data_reads_back(others);
        lemma_idat_front(payloads);
        lemma_reads_idat(payloads[0], rest, joined(others));
        assert(idat_chunks(payloads) + end_chunk() =~= chunk(IDAT@, payloads[0]) + rest);
    }
}

/// A file reads back as the fields of its header and the compressed image that its payloads
/// make up.
pub proof fn law_png_file_reads_back(
    width: u32,
    height: u32,
    bit_depth: u8,
    color_type: u8,
    payloads: Seq<Seq<u8>>,
)
    requires
        forall|i: int| 0 <= i < payloads.len() ==> (#[trigger] payloads[i]).len() <= u32::MAX,
    ensures
        read_png(png_file(width, height, bit_depth, color_type, payloads)) == Some(
            ReadPng {
                width: width as nat,
                height: height as nat,
                bit_depth,
                color_type,
                compressed: joined(payloads),
            },
        ),
{
    let data = ihdr_data(width, height, bit_depth, color_type);
    let head = chunk(IHDR@, data);
    let rest = idat_chunks(payloads) + end_chunk();
    assert(png_file(width, height, bit_depth, color_type, payloads) == PNG_MAGIC@ + (head + rest))
        by {
        assert(PNG_MAGIC@ + head + idat_chunks(payloads) + end_chunk() =~= PNG_MAGIC@ + (head
            + rest));
    }
    assert(IHDR@.len() == 4);
    law_be_bytes_read_back(width);
    law_be_bytes_read_back(height);
    lemma_ihdr_fields(be_bytes(width), be_bytes(height), bit_depth, color_type);
    lemma_image_data_reads_back(payloads);
    law_chunk_reads_back(IHDR@, data, rest);
    lemma_reads_png(head + rest, ReadChunk { chunk_type: IHDR@, data, rest }, joined(payloads));
}

/// Behind the signature a reader goes on with the header chunk and the image data.
proof fn lemma_reads_png(body: Seq<u8>, c: ReadChunk, compressed: Seq<u8>)
    requires
        read_chunk(body) == Some(c),
        c.chunk_type == IHDR@,
        c.data.len() == 13,
        c.data.skip(10) == seq![0u8, 0u8, 0u8],
        read_image_data(c.rest) == Some(compressed),
    ensures
        read_png(PNG_MAGIC@ + body) == Some(
            ReadPng {
                width: be_value(c.data),
                height: be_value(c.data.skip(4)),
                bit_depth: c.data[8],
                color_type: c.data[9],
                compressed,
            },
        ),
{
    let file = PNG_MAGIC@ + body;
    assert(PNG_MAGIC@ =~= seq![137u8, 80u8, 78u8, 71u8, 13u8, 10u8, 26u8, 10u8]);
    assert(IHDR@ =~= seq![73u8, 72u8, 68u8, 82u8]);
    assert(file.take(8) =~= PNG_MAGIC@);
    assert(file.skip(8) =~= body);
}

/// The fields of the header chunk stand where a reader looks for them.
proof fn lemma_ihdr_fields(w: Seq<u8>, h: Seq<u8>, bit_depth: u8, color_type: u8)
    requires
        w.len() == 4,
        h.len() == 4,
    ensures
        ({
            let data = w + h + seq![bit_depth, color_type, 0u8, 0u8, 0u8];
            &&& data.len() == 13
            &&& be_value(data) == be_value(w)
            &&& be_value(data.skip(4)) == be_value(h)
            &&& data[8] == bit_depth
            &&& data[9] == color_type
            &&& data.skip(10) == seq![0u8, 0u8, 0u8]
        }),
{
    let data = w + h + seq![bit_depth, color_type, 0u8, 0u8, 0u8];
    assert(data.skip(10) =~= seq![0u8, 0u8, 0u8]);
}

/// The data of the header chunk.
pub fn make_ihdr(width: u32, height: u32, bit_depth: u8, color_type: u8) -> (r: Vec<u8>)
    ensures
        r@ == ihdr_data(width, height, bit_depth, color_type),
{
    let mut ihdr: Vec<u8> = Vec::with_capacity(13);
    push_be(&mut ihdr, width);
    push_be(&mut ihdr, height);
    push_all(&mut ihdr, &[bit_depth, color_type, 0, 0, 0]);
    assert(ihdr@ =~= ihdr_data(width, height, bit_depth, color_type));
    ihdr
}

} // verus!

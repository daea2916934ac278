//! PNG chunks: the CRC, the framing of a chunk, and how a reader takes one apart.
use vstd::prelude::*;

verus! {

/// The eight bytes that every PNG file starts with.
pub const PNG_MAGIC: [u8; 8] = [137, 80, 78, 71, 13, 10, 26, 10];

/// Type of the header chunk.
pub const IHDR: [u8; 4] = [73, 72, 68, 82];

/// Type of the chunks that hold the compressed image.
pub const IDAT: [u8; 4] = [73, 68, 65, 84];

/// Type of the last chunk.
pub const IEND: [u8; 4] = [73, 69, 78, 68];

/// The four bytes of `x`, most significant first.
pub open spec fn be_bytes(x: u32) -> Seq<u8> {
    seq![
        (x / 0x100_0000) as u8,
        (x / 0x1_0000 % 0x100) as u8,
        (x / 0x100 % 0x100) as u8,
        (x % 0x100) as u8,
    ]
}

/// The number whose four bytes, most significant first, are the first four of `s`.
pub open spec fn be_value(s: Seq<u8>) -> nat {
    (s[0] * 0x100_0000 + s[1] * 0x1_0000 + s[2] * 0x100 + s[3]) as nat
}

/// One bit of the CRC's shift register.
pub open spec fn crc_shift(c: u32) -> u32 {
    if c & 1 == 1 {
        (c >> 1) ^ 0xEDB8_8320
    } else {
        c >> 1
    }
}

/// `n` bits of the CRC's shift register.
pub open spec fn crc_shifts(c: u32, n: nat) -> u32
    decreases n,
{
    if n == 0 {
        c
    } else {
        crc_shift(crc_shifts(c, (n - 1) as nat))
    }
}

/// The CRC's shift register after it has taken in `bytes`.
pub open spec fn crc_register(c: u32, bytes: Seq<u8>) -> u32
    decreases bytes.len(),
{
    if bytes.len() == 0 {
        c
    } else {
        crc_shifts(crc_register(c, bytes.drop_last()) ^ (bytes.last() as u32), 8)
    }
}

/// CRC-32 of `bytes`, where `crc` is the CRC of what went before (zero at the start).
pub open spec fn crc_of(crc: u32, bytes: Seq<u8>) -> u32 {
    !crc_register(!crc, bytes)
}

/// A length as it stands in a chunk: its low 32 bits.
pub open spec fn chunk_len(n: nat) -> nat {
    n % 0x1_0000_0000
}

/// A chunk: length, type, data and the CRC of type and data. Of data with more bytes than the
/// length field can express the CRC covers only as many as the field says.
pub open spec fn chunk(chunk_type: Seq<u8>, data: Seq<u8>) -> Seq<u8> {
    be_bytes(chunk_len(data.len()) as u32) + chunk_type + data + be_bytes(
        crc_of(0, chunk_type + data.take(chunk_len(data.len()) as int)),
    )
}

/// What a reader finds at the start of a file: type and data of the first chunk, and the rest
/// of the file.
pub struct ReadChunk {
    pub chunk_type: Seq<u8>,
    pub data: Seq<u8>,
    pub rest: Seq<u8>,
}

/// Reads the first chunk of `bytes`, if it is all there and its CRC is right.
pub open spec fn read_chunk(bytes: Seq<u8>) -> Option<ReadChunk> {
    let n = be_value(bytes) as int;
    if bytes.len() < 12 || bytes.len() < 12 + n {
        None
    } else if be_value(bytes.skip(8 + n)) != crc_of(0, bytes.subrange(4, 8 + n)) {
        None
    } else {
        Some(
            ReadChunk {
                chunk_type: bytes.subrange(4, 8),
                data: bytes.subrange(8, 8 + n),
                rest: bytes.skip(12 + n),
            },
        )
    }
}

/// Four bytes read back give the number they were made from.
pub proof fn law_be_bytes_read_back(x: u32)
    ensures
        be_bytes(x).len() == 4,
        be_value(be_bytes(x)) == x,
{
}

/// The CRC of a concatenation is the CRC of its parts in turn.
pub proof fn law_crc_in_parts(crc: u32, a: Seq<u8>, b: Seq<u8>)
    ensures
        crc_of(crc_of(crc, a), b) == crc_of(crc, a + b),
    decreases b.len(),
{
    let r = crc_register(!crc, a);
    assert(!(!r) == r) by (bit_vector);
    lemma_register_in_parts(!crc, a, b);
}

/// The shift register takes in a concatenation part by part.
proof fn lemma_register_in_parts(c: u32, a: Seq<u8>, b: Seq<u8>)
    ensures
        crc_register(crc_register(c, a), b) == crc_register(c, a + b),
    decreases b.len(),
{
    if b.len() == 0 {
        assert(a + b =~= a);
    } else {
        lemma_register_in_parts(c, a, b.drop_last());
        assert((a + b).drop_last() =~= a + b.drop_last());
    }
}

/// A chunk reads back as its type and its data, whatever follows it in the file.
pub proof fn law_chunk_reads_back(chunk_type: Seq<u8>, data: Seq<u8>, rest: Seq<u8>)
    requires
        chunk_type.len() == 4,
        data.len() <= u32::MAX,
    ensures
        read_chunk(chunk(chunk_type, data) + rest) == Some(ReadChunk { chunk_type, data, rest }),
{
    let n = data.len() as u32;
    let crc = crc_of(0, chunk_type + data);
    assert(chunk(chunk_type, data) == be_bytes(n) + chunk_type + data + be_bytes(crc)) by {
        assert(chunk_len(data.len()) == n);
        assert(data.take(data.len() as int) =~= data);
    }
    law_be_bytes_read_back(n);
    law_be_bytes_read_back(crc);
    lemma_pieces(be_bytes(n), chunk_type, data, be_bytes(crc), rest);
}

/// Where the parts of a chunk stand, whatever its data: the length's low 32 bits, highest byte
/// first, the type, all of the data, and the CRC, highest byte first, of the type and of as
/// much of the data as the length says.
pub proof fn law_chunk_layout(chunk_type: Seq<u8>, data: Seq<u8>)
    requires
        chunk_type.len() == 4,
    ensures
        ({
            let c = chunk(chunk_type, data);
            let n = data.len() as int;
            let crc = crc_of(0, chunk_type + data.subrange(0, n % 4_294_967_296));
            &&& c.len() == n + 12
            &&& 16_777_216 * c[0] + 65_536 * c[1] + 256 * c[2] + c[3] == n % 4_294_967_296
            &&& c.subrange(4, 8) == chunk_type
            &&& c.subrange(8, 8 + n) == data
            &&& 16_777_216 * c[n + 8] + 65_536 * c[n + 9] + 256 * c[n + 10] + c[n + 11] == crc
        }),
{
    let c = chunk(chunk_type, data);
    let n = data.len() as int;
    assert(data.take(n % 0x1_0000_0000) =~= data.subrange(0, n % 4_294_967_296));
    law_be_bytes_read_back(chunk_len(data.len()) as u32);
    law_be_bytes_read_back(crc_of(0, chunk_type + data.take(chunk_len(data.len()) as int)));
    assert(c.subrange(4, 8) =~= chunk_type);
    assert(c.subrange(8, 8 + n) =~= data);
    let len = be_bytes(chunk_len(data.len()) as u32);
    assert(c[0] == len[0] && c[1] == len[1] && c[2] == len[2] && c[3] == len[3]);
    let crc = be_bytes(crc_of(0, chunk_type + data.take(chunk_len(data.len()) as int)));
    assert(c[n + 8] == crc[0] && c[n + 9] == crc[1] && c[n + 10] == crc[2] && c[n + 11] == crc[3]);
}

/// Five pieces that fit together read as a chunk and what follows it.
proof fn lemma_pieces(a: Seq<u8>, b: Seq<u8>, c: Seq<u8>, d: Seq<u8>, rest: Seq<u8>)
    requires
        a.len() == 4,
        b.len() == 4,
        d.len() == 4,
        be_value(a) == c.len(),
        be_value(d) == crc_of(0, b + c),
    ensures
        read_chunk(a + b + c + d + rest) == Some(ReadChunk { chunk_type: b, data: c, rest }),
{
    let s = a + b + c + d + rest;
    let n = c.len() as int;
    assert(be_value(s) == be_value(a));
    assert(be_value(s.skip(8 + n)) == be_value(d));
    assert(s.subrange(4, 8 + n) =~= b + c);
    assert(s.subrange(4, 8) =~= b);
    assert(s.subrange(8, 8 + n) =~= c);
    assert(s.skip(12 + n) =~= rest);
}

/// Appends the four bytes of `x` to `out`, most significant first.
pub fn push_be(out: &mut Vec<u8>, x: u32)
    ensures
        final(out)@ == old(out)@ + be_bytes(x),
{
    let ghost before = out@;
    out.push((x / 0x100_0000) as u8);
    out.push((x / 0x1_0000 % 0x100) as u8);
    out.push((x / 0x100 % 0x100) as u8);
    out.push((x % 0x100) as u8);
    assert(out@ =~= before + be_bytes(x));
}

/// CRC-32 of `buf`, where `crc` is the CRC of what went before (zero at the start).
pub fn crc32(crc: u32, buf: &[u8]) -> (r: u32)
    ensures
        r == crc_of(crc, buf@),
{
    let mut c: u32 = !crc;
    let mut i: usize = 0;
    assert(buf@.take(0) =~= Seq::empty());
    while i < buf.len()
        invariant
            i <= buf@.len(),
            c == crc_register(!crc, buf@.take(i as int)),
        decreases buf@.len() - i,
    {
        let ghost start = c ^ (buf@[i as int] as u32);
        c = c ^ (buf[i] as u32);
        let mut bit: u32 = 0;
        while bit < 8
            invariant
                bit <= 8,
                c == crc_shifts(start, bit as nat),
            decreases 8 - bit,
        {
            c = if c & 1 == 1 {
                (c >> 1) ^ 0xEDB8_8320
            } else {
                c >> 1
            };
            bit = bit + 1;
        }
        assert(buf@.take(i + 1).drop_last() =~= buf@.take(i as int));
        i = i + 1;
    }
    assert(buf@.take(i as int) =~= buf@);
    !c
}

/// Appends `bytes` to `out`.
pub fn push_all(out: &mut Vec<u8>, bytes: &[u8])
    ensures
        final(out)@ == old(out)@ + bytes@,
{
    let ghost before = out@;
    out.extend_from_slice(bytes);
    assert(out@ =~= before + bytes@);
}

/// Appends a chunk of the given type and data to `writer`.
pub fn write_chunk(writer: &mut Vec<u8>, chunk_type: &[u8; 4], data: &[u8])
    ensures
        final(writer)@ == old(writer)@ + chunk(chunk_type@, data@),
{
    let ghost before = writer@;
    let len: u32 = (data.len() as u64 % 0x1_0000_0000) as u32;
    push_be(writer, len);
    push_all(writer, chunk_type);
    let covered: &[u8] = &data[0..len as usize];
    let crc: u32 = crc32(crc32(0, chunk_type), covered);
    proof {
        law_crc_in_parts(0, chunk_type@, covered@);
        assert(covered@ =~= data@.take(len as int));
    }
    push_all(writer, data);
    push_be(writer, crc);
    assert(writer@ =~= before + chunk(chunk_type@, data@));
}

} // verus!

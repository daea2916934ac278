use pngstreamenc::chunk::{crc32, push_be, write_chunk, IDAT, IEND, IHDR};
use pngstreamenc::png_file::make_ihdr;

#[test]
fn crc_of_known_texts() {
    assert_eq!(crc32(0, b""), 0);
    assert_eq!(crc32(0, b"123456789"), 0xCBF4_3926);
    assert_eq!(crc32(0, b"IEND"), 0xAE42_6082);
    assert_eq!(crc32(0, b"The quick brown fox jumps over the lazy dog"), 0x414F_A339);
}

#[test]
fn crc_in_parts() {
    let whole = b"a text in two parts";
    for cut in 0..whole.len() {
        assert_eq!(crc32(crc32(0, &whole[..cut]), &whole[cut..]), crc32(0, whole));
    }
}

#[test]
fn big_endian_bytes() {
    let mut out = vec![1u8];
    push_be(&mut out, 0x0102_0304);
    push_be(&mut out, 0xFFFF_FFFF);
    assert_eq!(out, [1, 1, 2, 3, 4, 255, 255, 255, 255]);
}

#[test]
fn end_chunk_bytes() {
    let mut out = Vec::new();
    write_chunk(&mut out, &IEND, &[]);
    assert_eq!(out, [0, 0, 0, 0, 73, 69, 78, 68, 0xAE, 0x42, 0x60, 0x82]);
}

#[test]
fn header_chunk_of_a_pixel() {
    let mut out = vec![42u8];
    let ihdr = make_ihdr(1, 1, 8, 2);
    assert_eq!(ihdr, [0, 0, 0, 1, 0, 0, 0, 1, 8, 2, 0, 0, 0]);
    write_chunk(&mut out, &IHDR, &ihdr);
    assert_eq!(
        out,
        [
            42, 0, 0, 0, 13, 73, 72, 68, 82, 0, 0, 0, 1, 0, 0, 0, 1, 8, 2, 0, 0, 0, 0x90, 0x77,
            0x53, 0xDE
        ]
    );
}

#[test]
fn chunk_reads_back() {
    let data: Vec<u8> = (0..300u32).map(|i| (i * 7) as u8).collect();
    let mut out = Vec::new();
    write_chunk(&mut out, &IDAT, &data);
    assert_eq!(out.len(), 312);
    assert_eq!(u32::from_be_bytes([out[0], out[1], out[2], out[3]]), 300);
    assert_eq!(&out[4..8], b"IDAT");
    assert_eq!(&out[8..308], &data[..]);
    let crc = u32::from_be_bytes([out[308], out[309], out[310], out[311]]);
    assert_eq!(crc, crc32(0, &out[4..308]));
}

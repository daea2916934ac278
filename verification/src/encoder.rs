//! The encoder between two outside operations: its settings, its buffers and what it has done.
//!
//! The encoder does no input or output and does not compress. It prepares rows for the
//! compressor, collects what the compressor produces, and frames it for the file.
use crate::chunk::{push_all, write_chunk, IDAT};
use crate::filter::{
    apply_filter_adaptive, apply_filter_avg, apply_filter_none, apply_filter_paeth,
    apply_filter_sub, apply_filter_up, copy_front, cost_fits, lemma_filter_context,
};
use crate::png_file::{file_start, idat_chunks, joined};
use crate::unfilter::{
    law_cheapest_is_unique, line_bytes, row_above, samples_in, step_back, stream_row, stream_rows,
};
use vstd::prelude::*;

verus! {

/// How much compressed data is collected for one IDAT chunk.
pub const OUT_BUF_SIZE: usize = 2 * 1024 * 1024;

/// Number of samples in a pixel of that color type.
pub open spec fn channels_of(color_type: u8) -> Option<nat> {
    if color_type == 0 || color_type == 3 {
        Some(1)
    } else if color_type == 2 {
        Some(3)
    } else if color_type == 4 {
        Some(2)
    } else if color_type == 6 {
        Some(4)
    } else {
        None
    }
}

/// Number of bits in a row.
pub open spec fn row_bits(width: u32, channels: nat, bit_depth: u8) -> nat {
    width as nat * (channels * bit_depth as nat)
}

/// Number of bytes in a row; bits that do not fill a byte take one more.
pub open spec fn row_bytes(width: u32, channels: nat, bit_depth: u8) -> nat {
    (row_bits(width, channels, bit_depth) + 7) / 8
}

/// Number of bytes in a pixel, at least one.
pub open spec fn pixel_bytes(channels: nat, bit_depth: u8) -> nat {
    if channels * bit_depth as nat / 8 >= 1 {
        channels * bit_depth as nat / 8
    } else {
        1
    }
}

/// The row's size can be computed on this machine.
pub open spec fn row_fits(width: u32, bit_depth: u8, color_type: u8) -> bool {
    channels_of(color_type) matches Some(channels) ==> row_bits(width, channels, bit_depth) + 7
        <= usize::MAX
}

/// What is fixed when an encoder is opened.
#[derive(Clone, Copy, Debug, PartialEq, Eq, Structural)]
pub struct Settings {
    pub width: u32,
    pub height: u32,
    pub bit_depth: u8,
    pub color_type: u8,
    pub filter_type: u8,
}

/// What an encoder has done so far.
pub struct History {
    /// The bytes of all writes that succeeded.
    pub written: Seq<u8>,
    /// The data of the IDAT chunks among them.
    pub payloads: Seq<Seq<u8>>,
    /// The bytes that the compressor has produced.
    pub produced: Seq<u8>,
    /// The bytes that the compressor has taken in.
    pub consumed: Seq<u8>,
    /// The rows that have been filtered.
    pub rows: Seq<Seq<u8>>,
    /// Nothing has failed, and no row was dropped before the compressor had taken it in.
    pub faultless: bool,
}

/// An encoder as a mathematical value.
pub struct Encoder {
    pub settings: Settings,
    /// Bytes in a row.
    pub width: nat,
    /// Bytes in a pixel.
    pub bpp: nat,
    /// The last row that was filtered, zeros before the first one.
    pub prev: Seq<u8>,
    /// What the compressor has yet to take in.
    pub input: Seq<u8>,
    /// What the compressor has produced since the last IDAT chunk.
    pub output: Seq<u8>,
    pub history: History,
}

/// How far an encoder has got.
pub enum Phase {
    /// Rows are taken in, or the compressed stream is being brought to its end.
    Open,
    /// The compressed stream has come to its end.
    Drained,
    /// The end chunk has been written.
    Ended,
}

/// The first `n` of these payloads fill an IDAT chunk.
pub open spec fn are_full(payloads: Seq<Seq<u8>>, n: int) -> bool {
    forall|i: int| 0 <= i < n ==> (#[trigger] payloads[i]).len() == OUT_BUF_SIZE
}

/// A row of zeros.
pub open spec fn blank(width: nat) -> Seq<u8> {
    Seq::new(width, |i: int| 0u8)
}

/// The last of `rows`, or `top` if there is none.
pub open spec fn last_row(rows: Seq<Seq<u8>>, top: Seq<u8>) -> Seq<u8> {
    if rows.len() == 0 {
        top
    } else {
        rows.last()
    }
}

/// The part of a prepared row that is handed to the compressor: its length is told in 32 bits,
/// so of a row that is longer only as much as the low 32 bits say.
pub open spec fn handed_over(row: Seq<u8>) -> Seq<u8> {
    row.take((row.len() % 0x1_0000_0000) as int)
}

impl Encoder {
    /// What holds of an encoder at all times, from the header on. Up to the end of the
    /// compressed stream all IDAT chunks are full; only the last one of a file may not be.
    #[verifier::opaque]
    pub open spec fn inv(self, phase: Phase) -> bool {
        let s = self.settings;
        let h = self.history;
        &&& channels_of(s.color_type) matches Some(channels) && {
            &&& self.width == row_bytes(s.width, channels, s.bit_depth)
            &&& self.bpp == pixel_bytes(channels, s.bit_depth)
        }
        &&& self.prev.len() == self.width
        &&& self.prev == last_row(h.rows, blank(self.width))
        &&& forall|i: int| 0 <= i < h.rows.len() ==> (#[trigger] h.rows[i]).len() == self.width
        &&& self.input.len() <= u32::MAX
        &&& self.output.len() <= OUT_BUF_SIZE
        &&& joined(h.payloads) + self.output == h.produced
        &&& forall|i: int|
            0 <= i < h.payloads.len() ==> 0 < (#[trigger] h.payloads[i]).len() <= OUT_BUF_SIZE
        &&& are_full(
            h.payloads,
            if phase is Open || self.output.len() > 0 {
                h.payloads.len() as int
            } else {
                h.payloads.len() - 1
            },
        )
        &&& h.written == file_start(s.width, s.height, s.bit_depth, s.color_type) + idat_chunks(
            h.payloads,
        ) + if phase is Ended {
            crate::png_file::end_chunk()
        } else {
            Seq::empty()
        }
        &&& h.faultless && self.is_handed_whole() ==> h.consumed + self.input == stream_rows(
            s.filter_type,
            h.rows,
            blank(self.width),
            self.bpp,
        )
    }

    /// No row was longer than 32 bits can count, so that all were handed over whole.
    pub open spec fn is_handed_whole(self) -> bool {
        self.width + 1 <= u32::MAX || self.history.rows.len() == 0
    }

    /// The encoder with `row` filtered and waiting for the compressor.
    pub open spec fn with_row(self, row: Seq<u8>) -> Encoder {
        Encoder {
            input: handed_over(stream_row(self.settings.filter_type, row, self.prev, self.bpp)),
            prev: row,
            history: History {
                rows: self.history.rows.push(row),
                faultless: self.history.faultless && self.input.len() == 0,
                ..self.history
            },
            ..self
        }
    }

    /// The encoder after the compressor has left `avail_in` bytes of its input and produced
    /// `produced`.
    pub open spec fn with_deflated(self, avail_in: nat, produced: Seq<u8>) -> Encoder {
        let taken = self.input.len() - avail_in;
        Encoder {
            input: self.input.skip(taken),
            output: self.output + produced,
            history: History {
                consumed: self.history.consumed + self.input.take(taken),
                produced: self.history.produced + produced,
                ..self.history
            },
            ..self
        }
    }

    /// The encoder after its output has been written as an IDAT chunk.
    pub open spec fn with_idat(self) -> Encoder {
        Encoder {
            output: Seq::empty(),
            history: History {
                written: self.history.written + crate::chunk::chunk(IDAT@, self.output),
                payloads: self.history.payloads.push(self.output),
                ..self.history
            },
            ..self
        }
    }

    /// The encoder after the end chunk has been written.
    pub open spec fn with_end(self) -> Encoder {
        Encoder {
            history: History {
                written: self.history.written + crate::png_file::end_chunk(),
                ..self.history
            },
            ..self
        }
    }

    /// The encoder without its input.
    pub open spec fn without_input(self) -> Encoder {
        Encoder {
            input: Seq::empty(),
            history: History {
                faultless: self.history.faultless && self.input.len() == 0,
                ..self.history
            },
            ..self
        }
    }

    /// The encoder after a failure.
    pub open spec fn with_fault(self) -> Encoder {
        Encoder { history: History { faultless: false, ..self.history }, ..self }
    }
}

/// An encoder as it is right after its header has been written.
pub open spec fn opened(s: Settings) -> Encoder {
    let channels = channels_of(s.color_type).unwrap();
    let width = row_bytes(s.width, channels, s.bit_depth);
    Encoder {
        settings: s,
        width,
        bpp: pixel_bytes(channels, s.bit_depth),
        prev: blank(width),
        input: Seq::empty(),
        output: Seq::empty(),
        history: History {
            written: file_start(s.width, s.height, s.bit_depth, s.color_type),
            payloads: Seq::empty(),
            produced: Seq::empty(),
            consumed: Seq::empty(),
            rows: Seq::empty(),
            faultless: true,
        },
    }
}

/// The five color types of PNG are known, with one sample to a pixel for gray and palette, two
/// for gray with alpha, three for RGB and four for RGB with alpha; no other is.
pub proof fn law_color_types(color_type: u8)
    ensures
        channels_of(color_type) is Some <==> (color_type == 0 || color_type == 2 || color_type == 3
            || color_type == 4 || color_type == 6),
        channels_of(color_type) matches Some(n) ==> n == samples_in(color_type),
        color_type == 0 || color_type == 3 ==> channels_of(color_type) == Some(1nat),
        color_type == 2 ==> channels_of(color_type) == Some(3nat),
        color_type == 4 ==> channels_of(color_type) == Some(2nat),
        color_type == 6 ==> channels_of(color_type) == Some(4nat),
{
}

/// A row takes the least number of bytes that hold all its bits.
pub proof fn law_row_holds_its_bits(width: u32, channels: nat, bit_depth: u8)
    ensures
        8 * row_bytes(width, channels, bit_depth) >= width * (channels * bit_depth),
        8 * row_bytes(width, channels, bit_depth) < width * (channels * bit_depth) + 8,
{
}

/// A pixel takes the whole bytes in its bits, and one byte where its bits fill none.
pub proof fn law_pixel_holds_its_bits(channels: nat, bit_depth: u8)
    ensures
        channels * bit_depth < 8 ==> pixel_bytes(channels, bit_depth) == 1,
        channels * bit_depth >= 8 ==> {
            &&& 8 * pixel_bytes(channels, bit_depth) <= channels * bit_depth
            &&& channels * bit_depth < 8 * pixel_bytes(channels, bit_depth) + 8
        },
        (channels * bit_depth) % 8 == 0 && channels * bit_depth > 0 ==> 8 * pixel_bytes(
            channels,
            bit_depth,
        ) == channels * bit_depth,
{
}

/// An opened encoder has the sizes that a reader works out from width, bit depth and color
/// type, nothing taken in, a row of zeros above the first row, and the settings it was given.
pub proof fn law_opened_has_the_sizes(s: Settings)
    requires
        s.color_type == 0 || s.color_type == 2 || s.color_type == 3 || s.color_type == 4
            || s.color_type == 6,
    ensures
        opened(s).settings == s,
        opened(s).width == line_bytes(s.width as nat, s.bit_depth, s.color_type),
        opened(s).bpp == step_back(s.bit_depth, s.color_type),
        8 * opened(s).width >= s.width * (samples_in(s.color_type) * s.bit_depth),
        8 * opened(s).width < s.width * (samples_in(s.color_type) * s.bit_depth) + 8,
        opened(s).prev.len() == opened(s).width,
        forall|i: int| 0 <= i < opened(s).width ==> opened(s).prev[i] == 0,
        opened(s).input.len() == 0,
        opened(s).output.len() == 0,
        opened(s).history.rows.len() == 0,
{
    law_row_holds_its_bits(s.width, samples_in(s.color_type), s.bit_depth);
}

/// Whether the size of a row can be computed is a matter of its number of bits alone. Of a
/// color type that is none of PNG's no size is computed.
pub proof fn law_row_fits_by_its_bits(width: u32, bit_depth: u8, color_type: u8)
    ensures
        color_type == 0 || color_type == 2 || color_type == 3 || color_type == 4 || color_type == 6
            ==> (row_fits(width, bit_depth, color_type) <==> width * (samples_in(color_type)
            * bit_depth) <= usize::MAX - 7),
        !(color_type == 0 || color_type == 2 || color_type == 3 || color_type == 4 || color_type
            == 6) ==> row_fits(width, bit_depth, color_type),
        width * (samples_in(color_type) * bit_depth) <= 0xFFFF_FFF8 ==> row_fits(
            width,
            bit_depth,
            color_type,
        ),
{
}

/// What the sizes of an encoder in order are.
pub proof fn law_sizes(e: Encoder, phase: Phase)
    requires
        e.inv(phase),
    ensures
        channels_of(e.settings.color_type) matches Some(channels) && {
            &&& e.width == row_bytes(e.settings.width, channels, e.settings.bit_depth)
            &&& e.bpp == pixel_bytes(channels, e.settings.bit_depth)
        },
        e.bpp >= 1,
        e.prev.len() == e.width,
        e.input.len() <= u32::MAX,
        e.output.len() <= OUT_BUF_SIZE,
        cost_fits(e.width),
{
    reveal(Encoder::inv);
    lemma_row_cost_fits(
        e.settings.width,
        channels_of(e.settings.color_type).unwrap(),
        e.settings.bit_depth,
    );
}

/// An opened encoder is in order.
pub proof fn law_opened_is_in_order(s: Settings)
    requires
        channels_of(s.color_type) is Some,
    ensures
        opened(s).inv(Phase::Open),
{
    reveal(Encoder::inv);
    let e = opened(s);
    assert(joined(e.history.payloads) + e.output =~= e.history.produced);
    assert(e.history.written =~= e.history.written + idat_chunks(e.history.payloads)
        + Seq::empty());
    assert(e.history.consumed + e.input =~= stream_rows(
        s.filter_type,
        e.history.rows,
        blank(e.width),
        e.bpp,
    ));
}

/// Filtering a row keeps an encoder in order.
pub proof fn law_row_keeps_order(e: Encoder, row: Seq<u8>)
    requires
        e.inv(Phase::Open),
        row.len() == e.width,
    ensures
        e.with_row(row).inv(Phase::Open),
{
    reveal(Encoder::inv);
    let s = e.settings;
    let h = e.history;
    let f = e.with_row(row);
    let top = blank(e.width);
    assert(f.history.rows.drop_last() =~= h.rows);
    assert(row_above(f.history.rows, top) == e.prev);
    let line = stream_row(s.filter_type, row, e.prev, e.bpp);
    assert(line.len() == e.width + 1);
    if f.history.faultless && f.is_handed_whole() {
        assert(handed_over(line) =~= line);
        assert(h.consumed + e.input =~= h.consumed);
        assert(f.history.consumed + f.input =~= stream_rows(
            s.filter_type,
            f.history.rows,
            top,
            e.bpp,
        ));
    }
}

/// A step of the compressor keeps an encoder in order.
pub proof fn law_deflate_keeps_order(e: Encoder, avail_in: nat, produced: Seq<u8>)
    requires
        e.inv(Phase::Open),
        avail_in <= e.input.len(),
        e.output.len() + produced.len() <= OUT_BUF_SIZE,
    ensures
        e.with_deflated(avail_in, produced).inv(Phase::Open),
{
    reveal(Encoder::inv);
    let f = e.with_deflated(avail_in, produced);
    assert(joined(f.history.payloads) + f.output =~= f.history.produced);
    assert(f.history.consumed + f.input =~= e.history.consumed + e.input);
}

/// Writing a full IDAT chunk keeps an encoder in order.
pub proof fn law_idat_keeps_order(e: Encoder)
    requires
        e.inv(Phase::Open),
        e.output.len() == OUT_BUF_SIZE,
    ensures
        e.with_idat().inv(Phase::Open),
{
    reveal(Encoder::inv);
    lemma_idat_record(e, Phase::Open);
}

/// What an IDAT chunk adds to the record.
proof fn lemma_idat_record(e: Encoder, phase: Phase)
    requires
        e.inv(phase),
        !(phase is Ended),
    ensures
        ({
            let s = e.settings;
            let f = e.with_idat();
            &&& joined(f.history.payloads) + f.output == f.history.produced
            &&& f.history.written == file_start(s.width, s.height, s.bit_depth, s.color_type)
                + idat_chunks(f.history.payloads) + Seq::empty()
        }),
{
    reveal(Encoder::inv);
    let s = e.settings;
    let f = e.with_idat();
    assert(f.history.payloads.drop_last() =~= e.history.payloads);
    assert(joined(f.history.payloads) + f.output =~= f.history.produced);
    assert(f.history.written =~= file_start(s.width, s.height, s.bit_depth, s.color_type)
        + idat_chunks(f.history.payloads) + Seq::empty());
}

/// The end of the compressed stream changes nothing of an encoder.
pub proof fn law_stream_end_keeps_order(e: Encoder)
    requires
        e.inv(Phase::Open),
    ensures
        e.inv(Phase::Drained),
{
    reveal(Encoder::inv);
}

/// Behind the end of the compressed stream an IDAT chunk for what is left, full or not, keeps
/// an encoder in order.
pub proof fn law_rest_keeps_order(e: Encoder)
    requires
        e.inv(Phase::Drained),
        e.output.len() > 0,
    ensures
        e.with_idat().inv(Phase::Drained),
{
    reveal(Encoder::inv);
    lemma_idat_record(e, Phase::Drained);
}

/// Writing the end chunk completes the file.
pub proof fn law_end_completes(e: Encoder)
    requires
        e.inv(Phase::Drained),
    ensures
        e.with_end().inv(Phase::Ended),
{
    reveal(Encoder::inv);
    let s = e.settings;
    let f = e.with_end();
    assert(f.history.written =~= file_start(s.width, s.height, s.bit_depth, s.color_type)
        + idat_chunks(f.history.payloads) + crate::png_file::end_chunk());
}

/// Dropping the input, and a failure, keep an encoder in order.
pub proof fn law_faults_keep_order(e: Encoder, phase: Phase)
    requires
        e.inv(phase),
    ensures
        e.without_input().inv(phase),
        e.with_fault().inv(phase),
{
    reveal(Encoder::inv);
    assert(e.input.len() == 0 ==> e.without_input().input =~= e.input);
}

/// The working storage of an encoder.
pub struct Buffers {
    out_buf: Vec<u8>,
    row_buf: Vec<u8>,
    prev_row: Vec<u8>,
    temp_row: Vec<u8>,
    next_in: usize,
    avail_in: u32,
    history: Ghost<History>,
}

impl Buffers {
    /// The last row that was filtered, zeros before the first one.
    pub closed spec fn prev(self) -> Seq<u8> {
        self.prev_row@
    }

    /// What the compressor has yet to take in.
    pub closed spec fn input(self) -> Seq<u8> {
        self.row_buf@.subrange(self.next_in as int, self.next_in + self.avail_in)
    }

    /// What the compressor has produced since the last IDAT chunk.
    pub closed spec fn output(self) -> Seq<u8> {
        self.out_buf@
    }

    /// What the encoder has done so far.
    pub closed spec fn past(self) -> History {
        self.history@
    }
}

/// An encoder for one PNG file.
pub struct PngEncoder {
    pub width: u32,
    pub height: u32,
    pub bit_depth: u8,
    pub color_type: u8,
    /// 0: none, 1: sub, 2: up, 3: average, 4: Paeth, 5: adaptive
    pub filter_type: u8,
    pub bytes_per_scanline: usize,
    pub bpp: usize,
    /// What the encoder works with; its contents are its own.
    pub buffers: Buffers,
}

impl View for PngEncoder {
    type V = Encoder;

    open spec fn view(&self) -> Encoder {
        Encoder {
            settings: Settings {
                width: self.width,
                height: self.height,
                bit_depth: self.bit_depth,
                color_type: self.color_type,
                filter_type: self.filter_type,
            },
            width: self.bytes_per_scanline as nat,
            bpp: self.bpp as nat,
            prev: self.buffers.prev(),
            input: self.buffers.input(),
            output: self.buffers.output(),
            history: self.buffers.past(),
        }
    }
}

impl PngEncoder {
    /// The buffers have the sizes that the settings call for.
    pub closed spec fn buffers_fit(self) -> bool {
        &&& self.buffers.row_buf@.len() == self.bytes_per_scanline + 1
        &&& self.buffers.temp_row@.len() == self.bytes_per_scanline + 1
        &&& self.buffers.next_in + self.buffers.avail_in <= self.buffers.row_buf@.len()
    }

    /// What every operation on an encoder needs and keeps.
    pub open spec fn wf(self) -> bool {
        self.buffers_fit() && self@.inv(Phase::Open)
    }

    /// As `wf`, behind the end of the compressed stream.
    pub open spec fn wf_drained(self) -> bool {
        self.buffers_fit() && self@.inv(Phase::Drained)
    }

    /// As `wf`, behind the end chunk.
    pub open spec fn wf_ended(self) -> bool {
        self.buffers_fit() && self@.inv(Phase::Ended)
    }

    /// An encoder whose file has its header, with all buffers empty. The color type must be
    /// one that PNG knows.
    pub fn new(s: Settings) -> (r: Self)
        requires
            channels_of(s.color_type) is Some,
            row_fits(s.width, s.bit_depth, s.color_type),
        ensures
            r@ == opened(s),
            r.wf(),
            r.width == s.width,
            r.height == s.height,
            r.bit_depth == s.bit_depth,
            r.color_type == s.color_type,
            r.filter_type == s.filter_type,
            channels_of(s.color_type) matches Some(channels) && {
                &&& r.bytes_per_scanline == row_bytes(s.width, channels, s.bit_depth)
                &&& r.bpp == pixel_bytes(channels, s.bit_depth)
            },
    {
        let channels: usize = match s.color_type {
            0 => 1,
            2 => 3,
            3 => 1,
            4 => 2,
            _ => 4,
        };
        assert(channels_of(s.color_type) == Some(channels as nat));
        assert(channels * s.bit_depth <= 4 * 255) by (nonlinear_arith)
            requires
                channels <= 4,
                s.bit_depth <= 255,
        ;
        let pixel_bits: usize = channels * s.bit_depth as usize;
        assert(s.width * pixel_bits == row_bits(s.width, channels as nat, s.bit_depth));
        let bytes_per_scanline: usize = (s.width as usize * pixel_bits + 7) / 8;
        let bpp: usize = if pixel_bits / 8 >= 1 { pixel_bits / 8 } else { 1 };
        let r = PngEncoder {
            width: s.width,
            height: s.height,
            bit_depth: s.bit_depth,
            color_type: s.color_type,
            filter_type: s.filter_type,
            bytes_per_scanline,
            bpp,
            buffers: Buffers {
                out_buf: Vec::with_capacity(OUT_BUF_SIZE),
                row_buf: vec![0u8; bytes_per_scanline + 1],
                prev_row: vec![0u8; bytes_per_scanline],
                temp_row: vec![0u8; bytes_per_scanline + 1],
                next_in: 0,
                avail_in: 0,
                history: Ghost(opened(s).history),
            },
        };
        proof {
            assert(r.buffers.prev_row@ =~= blank(bytes_per_scanline as nat));
            assert(r@.input =~= Seq::empty());
            law_opened_is_in_order(s);
        }
        r
    }

    /// Number of bytes in a row.
    pub fn row_len(&self) -> (r: usize)
        ensures
            r == self@.width,
    {
        self.bytes_per_scanline
    }

    /// What the compressor has yet to take in.
    pub fn pending_input(&self) -> (r: &[u8])
        requires
            self.buffers_fit(),
        ensures
            r@ == self@.input,
    {
        let end: usize = self.buffers.row_buf.len();
        assert(self.buffers.next_in + self.buffers.avail_in <= end);
        let start: usize = self.buffers.next_in;
        &self.buffers.row_buf[start..start + self.buffers.avail_in as usize]
    }

    /// How many bytes the compressor may produce before an IDAT chunk is due.
    pub fn avail_out(&self) -> (r: usize)
        requires
            self.wf(),
        ensures
            r == OUT_BUF_SIZE - self@.output.len(),
    {
        proof {
            law_sizes(self@, Phase::Open);
        }
        OUT_BUF_SIZE - self.buffers.out_buf.len()
    }

    /// How many bytes the compressor has yet to take in.
    pub fn avail_in(&self) -> (r: u32)
        requires
            self.buffers_fit(),
        ensures
            r == self@.input.len(),
    {
        self.buffers.avail_in
    }

    /// Filters `row` and makes it the compressor's input.
    pub(crate) fn prepare_row(&mut self, row: &[u8])
        requires
            old(self).wf(),
            row@.len() == old(self)@.width,
        ensures
            final(self)@ == old(self)@.with_row(row@),
            final(self).wf(),
    {
        let ghost before = self@;
        let ghost line = stream_row(self.filter_type, row@, before.prev, self.bpp as nat);
        proof {
            law_sizes(before, Phase::Open);
            law_row_keeps_order(before, row@);
            lemma_filter_context(row@, before.prev, self.bpp as nat, Seq::empty(), 0);
        }
        match self.filter_type {
            1 => {
                apply_filter_sub(row, self.bpp, &mut self.buffers.row_buf);
            },
            2 => {
                apply_filter_up(row, &self.buffers.prev_row, &mut self.buffers.row_buf);
            },
            3 => {
                apply_filter_avg(row, &self.buffers.prev_row, self.bpp, &mut self.buffers.row_buf);
            },
            4 => {
                apply_filter_paeth(
                    row,
                    &self.buffers.prev_row,
                    self.bpp,
                    &mut self.buffers.row_buf,
                );
            },
            5 => {
                apply_filter_adaptive(
                    row,
                    &self.buffers.prev_row,
                    self.bpp,
                    &mut self.buffers.row_buf,
                    &mut self.buffers.temp_row,
                );
                proof {
                    law_cheapest_is_unique(
                        self.buffers.row_buf@[0],
                        row@,
                        self.buffers.prev_row@,
                        self.bpp as nat,
                    );
                }
            },
            _ => {
                apply_filter_none(row, &mut self.buffers.row_buf);
            },
        }
        assert(self.buffers.row_buf@ =~= line);
        copy_front(&mut self.buffers.prev_row, row, row.len());
        assert(self.buffers.prev_row@ =~= row@);
        self.buffers.next_in = 0;
        self.buffers.avail_in = (self.buffers.row_buf.len() as u64 % 0x1_0000_0000) as u32;
        assert(self.buffers.input() =~= handed_over(line));
        self.buffers.history = Ghost(before.with_row(row@).history);
        assert(self@ == before.with_row(row@));
    }

    /// Takes note of a step of the compressor that left `avail_in` bytes of its input and
    /// produced `produced`.
    pub(crate) fn note_deflated(&mut self, avail_in: u32, produced: &[u8])
        requires
            old(self).wf(),
            avail_in <= old(self)@.input.len(),
            old(self)@.output.len() + produced@.len() <= OUT_BUF_SIZE,
        ensures
            final(self)@ == old(self)@.with_deflated(avail_in as nat, produced@),
            final(self).wf(),
    {
        let ghost before = self@;
        proof {
            law_deflate_keeps_order(before, avail_in as nat, produced@);
        }
        let end: usize = self.buffers.row_buf.len();
        assert(self.buffers.next_in + self.buffers.avail_in <= end);
        self.buffers.next_in = self.buffers.next_in + (self.buffers.avail_in - avail_in) as usize;
        self.buffers.avail_in = avail_in;
        push_all(&mut self.buffers.out_buf, produced);
        self.buffers.history = Ghost(before.with_deflated(avail_in as nat, produced@).history);
        assert(self@.input =~= before.with_deflated(avail_in as nat, produced@).input);
    }

    /// The IDAT chunk that is due for the output that has been collected, if there is any.
    pub fn write_idat(&self) -> (r: Option<Vec<u8>>)
        ensures
            r is Some <==> self@.output.len() > 0,
            r matches Some(bytes) ==> bytes@ == crate::chunk::chunk(IDAT@, self@.output),
    {
        if self.buffers.out_buf.len() == 0 {
            return None;
        }
        let mut bytes: Vec<u8> = Vec::with_capacity(self.buffers.out_buf.len());
        write_chunk(&mut bytes, &IDAT, &self.buffers.out_buf);
        assert(bytes@ =~= crate::chunk::chunk(IDAT@, self@.output));
        Some(bytes)
    }

    /// Takes note that the collected output has been written as an IDAT chunk.
    pub(crate) fn note_idat(&mut self)
        requires
            old(self).buffers_fit(),
        ensures
            final(self)@ == old(self)@.with_idat(),
            final(self).buffers_fit(),
            old(self).wf() && old(self)@.output.len() == OUT_BUF_SIZE ==> final(self).wf(),
            old(self).wf_drained() && old(self)@.output.len() > 0 ==> final(self).wf_drained(),
    {
        let ghost before = self@;
        proof {
            if before.inv(Phase::Open) && before.output.len() == OUT_BUF_SIZE {
                law_idat_keeps_order(before);
            }
            if before.inv(Phase::Drained) && before.output.len() > 0 {
                law_rest_keeps_order(before);
            }
        }
        self.buffers.out_buf.clear();
        self.buffers.history = Ghost(before.with_idat().history);
    }

    /// Takes note that the end chunk has been written.
    pub(crate) fn note_end(&mut self)
        requires
            old(self).wf_drained(),
        ensures
            final(self)@ == old(self)@.with_end(),
            final(self).wf_ended(),
    {
        let ghost before = self@;
        proof {
            law_end_completes(before);
        }
        self.buffers.history = Ghost(before.with_end().history);
    }

    /// Drops what the compressor has not taken in.
    pub(crate) fn drop_input(&mut self)
        requires
            old(self).wf(),
        ensures
            final(self)@ == old(self)@.without_input(),
            final(self).wf(),
    {
        let ghost before = self@;
        proof {
            law_faults_keep_order(before, Phase::Open);
        }
        self.buffers.avail_in = 0;
        self.buffers.history = Ghost(before.without_input().history);
        assert(self@.input =~= Seq::empty());
    }

    /// Takes note of a failure.
    pub(crate) fn note_fault(&mut self)
        ensures
            final(self)@ == old(self)@.with_fault(),
            old(self).wf() ==> final(self).wf(),
    {
        let ghost before = self@;
        proof {
            if before.inv(Phase::Open) {
                law_faults_keep_order(before, Phase::Open);
            }
        }
        self.buffers.history = Ghost(before.with_fault().history);
    }
}

/// The public fields of an encoder are its sizes and settings.
pub proof fn law_fields_are_the_settings(enc: PngEncoder)
    ensures
        enc.width == enc@.settings.width,
        enc.height == enc@.settings.height,
        enc.bit_depth == enc@.settings.bit_depth,
        enc.color_type == enc@.settings.color_type,
        enc.filter_type == enc@.settings.filter_type,
        enc.bytes_per_scanline == enc@.width,
        enc.bpp == enc@.bpp,
{
}

/// Whether the row's size can be computed on this machine.
pub fn row_size_fits(width: u32, bit_depth: u8, color_type: u8) -> (r: bool)
    ensures
        r == row_fits(width, bit_depth, color_type),
{
    let channels: u64 = match color_type {
        0 => 1,
        2 => 3,
        3 => 1,
        4 => 2,
        6 => 4,
        _ => {
            return true;
        },
    };
    assert(channels_of(color_type) == Some(channels as nat));
    assert(channels * bit_depth <= 4 * 255) by (nonlinear_arith)
        requires
            channels <= 4,
            bit_depth <= 255,
    ;
    let pixel_bits: u64 = channels * bit_depth as u64;
    assert(width * pixel_bits <= 0xFFFF_FFFF * (4 * 255)) by (nonlinear_arith)
        requires
            width <= 0xFFFF_FFFF,
            pixel_bits <= 4 * 255,
    ;
    width as u64 * pixel_bits + 7 <= usize::MAX as u64
}

/// The cost of a row always fits in 64 bits.
proof fn lemma_row_cost_fits(width: u32, channels: nat, bit_depth: u8)
    requires
        channels <= 4,
    ensures
        cost_fits(row_bytes(width, channels, bit_depth)),
{
    assert(width as nat * (channels * bit_depth as nat) <= 0xFFFF_FFFF * (4 * 255))
        by (nonlinear_arith)
        requires
            channels <= 4,
            width <= 0xFFFF_FFFF,
            bit_depth <= 255,
    ;
}

} // verus!

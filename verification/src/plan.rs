//! How the rows of an image are read and passed on in batches.
use crate::encoder::{channels_of, row_bytes};
use crate::header::{
    feed, feed_end, fresh, lemma_scan_used, scan, take_token, HeaderStage, ImageHeader, Progress,
    Reading,
};
use vstd::prelude::*;

verus! {

/// Number of samples in a pixel of the input, three where the color type is not known.
pub open spec fn input_channels(color_type: u8) -> nat {
    if color_type == 0 {
        1
    } else if color_type == 2 {
        3
    } else if color_type == 4 {
        2
    } else if color_type == 6 {
        4
    } else {
        3
    }
}

/// Number of whole bytes in a row of the input.
pub open spec fn input_width(width: u32, color_type: u8, bit_depth: u8) -> nat {
    (width as nat * input_channels(color_type) * bit_depth as nat) / 8
}

/// The color types and bit depths that image headers lead to.
pub open spec fn is_readable(h: ImageHeader) -> bool {
    &&& h.bit_depth == 8 || h.bit_depth == 16
    &&& h.color_type == 0 || h.color_type == 2 || h.color_type == 4 || h.color_type == 6
}

/// A header that a token completes is one that the encoder can use.
proof fn lemma_token_leads_to_readable(stage: HeaderStage, token: Seq<char>)
    ensures
        take_token(stage, token) matches Progress::Done(h) ==> is_readable(h),
{
}

/// Every header that can be read, in one buffer or up to the end of the stream, leads to a
/// color type that the encoder knows, with whole bytes for samples.
pub proof fn law_headers_are_readable(r: Reading, buf: Seq<u8>)
    ensures
        feed(r, buf).progress matches Progress::Done(h) ==> is_readable(h) && channels_of(
            h.color_type,
        ) is Some,
        feed_end(r).progress matches Progress::Done(h) ==> is_readable(h) && channels_of(
            h.color_type,
        ) is Some,
    decreases buf.len(),
{
    let s = scan(r.partial, buf);
    lemma_scan_used(r.partial, buf);
    lemma_token_leads_to_readable(r.stage, s.partial.token);
    lemma_token_leads_to_readable(r.stage, r.partial.token);
    if s.done {
        if let Progress::Next(stage) = take_token(r.stage, s.partial.token) {
            law_headers_are_readable(
                Reading { partial: fresh(), stage },
                buf.skip(s.used as int),
            );
        }
    }
}

/// For every header that can be read, a row of the input has as many bytes as the encoder
/// expects of a row.
pub proof fn law_input_rows_match(h: ImageHeader)
    requires
        is_readable(h),
    ensures
        input_width(h.width, h.color_type, h.bit_depth) == row_bytes(
            h.width,
            channels_of(h.color_type).unwrap(),
            h.bit_depth,
        ),
{
    let c = input_channels(h.color_type);
    let w = h.width as nat;
    let d = h.bit_depth as nat;
    assert(w * c * d == w * (c * d)) by (nonlinear_arith);
    assert(d == 8 ==> w * (c * d) == 8 * (w * c)) by (nonlinear_arith);
    assert(d == 16 ==> w * (c * d) == 8 * (2 * (w * c))) by (nonlinear_arith);
}

/// A row of the input takes the whole bytes in its bits, with one sample to a pixel for color
/// type 0, two for 4, four for 6 and three for all others.
pub proof fn law_input_row_holds_its_bits(width: u32, color_type: u8, bit_depth: u8)
    ensures
        ({
            let samples: int = if color_type == 0 {
                1
            } else if color_type == 4 {
                2
            } else if color_type == 6 {
                4
            } else {
                3
            };
            &&& 8 * input_width(width, color_type, bit_depth) <= width * samples * bit_depth
            &&& width * samples * bit_depth < 8 * input_width(width, color_type, bit_depth) + 8
        }),
{
}

/// A batch is as large as it may be, or it is the last one and takes all rows that are left.
pub proof fn law_batch_is_full_or_last(height: nat, scanlines: nat, y: nat)
    requires
        y <= height,
    ensures
        batch_lines(height, scanlines, y) <= scanlines,
        y + batch_lines(height, scanlines, y) <= height,
        batch_lines(height, scanlines, y) == scanlines || y + batch_lines(height, scanlines, y)
            == height,
{
}

/// An image fits unless the bits of a row, or the bytes of a batch, cannot be counted.
pub proof fn law_image_fits_by_its_size(h: ImageHeader, scanlines: u32)
    requires
        h.bit_depth == 8 || h.bit_depth == 16,
        h.color_type == 0 || h.color_type == 2 || h.color_type == 4 || h.color_type == 6,
    ensures
        ({
            let samples: int = if h.color_type == 0 {
                1
            } else if h.color_type == 2 {
                3
            } else if h.color_type == 4 {
                2
            } else {
                4
            };
            let bytes: int = if h.bit_depth == 8 {
                1
            } else {
                2
            };
            image_fits(h, scanlines) <==> {
                &&& 8 * (h.width * samples * bytes) <= usize::MAX
                &&& scanlines * (h.width * samples * bytes) <= usize::MAX
            }
        }),
{
    let c = input_channels(h.color_type);
    let w = h.width as nat;
    let d = h.bit_depth as nat;
    assert(w * c * 8 == 8 * (w * c * 1)) by (nonlinear_arith);
    assert(w * c * 16 == 8 * (w * c * 2)) by (nonlinear_arith);
}

/// The sizes of the batches from row `y` on.
pub open spec fn batches(height: nat, scanlines: nat, y: nat) -> Seq<nat>
    decreases height - y,
{
    if y >= height || scanlines == 0 {
        Seq::empty()
    } else {
        let lines = batch_lines(height, scanlines, y);
        seq![lines] + batches(height, scanlines, y + lines)
    }
}

/// The size of the batch at row `y`: as many rows as a batch may have, or those that are left.
pub open spec fn batch_lines(height: nat, scanlines: nat, y: nat) -> nat {
    if scanlines <= height - y {
        scanlines
    } else {
        (height - y) as nat
    }
}

/// Sum of numbers.
pub open spec fn total(s: Seq<nat>) -> nat
    decreases s.len(),
{
    if s.len() == 0 {
        0
    } else {
        s[0] + total(s.skip(1))
    }
}

/// The batches cover all rows once: none is empty or too large, and together they have as many
/// rows as are left.
pub proof fn law_batches_cover(height: nat, scanlines: nat, y: nat)
    requires
        scanlines >= 1,
        y <= height,
    ensures
        total(batches(height, scanlines, y)) == height - y,
        forall|i: int|
            0 <= i < batches(height, scanlines, y).len() ==> 1 <= #[trigger] batches(
                height,
                scanlines,
                y,
            )[i] <= scanlines,
    decreases height - y,
{
    if y < height {
        let lines = batch_lines(height, scanlines, y);
        let rest = batches(height, scanlines, y + lines);
        law_batches_cover(height, scanlines, y + lines);
        let all = batches(height, scanlines, y);
        assert(all == seq![lines] + rest);
        assert(all.skip(1) =~= rest);
        assert forall|i: int| 0 <= i < all.len() implies 1 <= #[trigger] all[i] <= scanlines by {
            if i > 0 {
                assert(all[i] == rest[i - 1]);
            }
        }
    }
}

/// Number of whole bytes in a row of the input.
pub fn input_row_bytes(width: u32, color_type: u8, bit_depth: u8) -> (r: usize)
    requires
        width as nat * input_channels(color_type) * bit_depth as nat <= usize::MAX,
    ensures
        r == input_width(width, color_type, bit_depth),
{
    let channels: usize = match color_type {
        0 => 1,
        2 => 3,
        4 => 2,
        6 => 4,
        _ => 3,
    };
    assert(channels == input_channels(color_type));
    if bit_depth == 0 {
        assert(width as nat * channels as nat * 0 == 0) by (nonlinear_arith);
        return 0;
    }
    assert(width * channels <= width * channels * bit_depth) by (nonlinear_arith)
        requires
            bit_depth >= 1,
    ;
    (width as usize * channels) * bit_depth as usize / 8
}

/// The batches in which the rows of an image are read.
pub struct RowPlan {
    height: u32,
    scanlines: u32,
    row_bytes: usize,
    current_y: u32,
}

/// A row and a batch of rows of the image have sizes that this machine can handle.
pub open spec fn image_fits(h: ImageHeader, scanlines: u32) -> bool {
    &&& h.width as nat * input_channels(h.color_type) * h.bit_depth as nat <= usize::MAX
    &&& scanlines as nat * input_width(h.width, h.color_type, h.bit_depth) <= usize::MAX
}

/// One batch.
#[derive(Clone, Copy, Debug, PartialEq, Eq, Structural)]
pub struct Batch {
    /// Number of rows.
    pub lines: u32,
    /// Number of bytes.
    pub bytes: usize,
}

/// A plan as a mathematical value.
pub struct Plan {
    pub height: nat,
    pub scanlines: nat,
    pub row_bytes: nat,
    pub y: nat,
}

impl Plan {
    /// The position lies within the image, and a batch can be held in memory.
    pub open spec fn inv(self) -> bool {
        &&& self.y <= self.height
        &&& self.scanlines * self.row_bytes <= usize::MAX
    }
}

impl View for RowPlan {
    type V = Plan;

    closed spec fn view(&self) -> Plan {
        Plan {
            height: self.height as nat,
            scanlines: self.scanlines as nat,
            row_bytes: self.row_bytes as nat,
            y: self.current_y as nat,
        }
    }
}

impl RowPlan {
    /// A plan for `height` rows of `row_bytes` bytes in batches of `scanlines` rows.
    pub fn new(height: u32, scanlines: u32, row_bytes: usize) -> (r: Self)
        requires
            scanlines * row_bytes <= usize::MAX,
        ensures
            r@ == (Plan {
                height: height as nat,
                scanlines: scanlines as nat,
                row_bytes: row_bytes as nat,
                y: 0,
            }),
            r@.inv(),
    {
        RowPlan { height, scanlines, row_bytes, current_y: 0 }
    }

    /// A plan for an image in batches of `scanlines` rows, unless a batch is too large for
    /// this machine.
    pub fn for_image(h: ImageHeader, scanlines: u32) -> (r: Option<Self>)
        ensures
            r is Some <==> image_fits(h, scanlines),
            r matches Some(plan) ==> {
                &&& plan@ == (Plan {
                    height: h.height as nat,
                    scanlines: scanlines as nat,
                    row_bytes: input_width(h.width, h.color_type, h.bit_depth),
                    y: 0,
                })
                &&& plan@.inv()
            },
    {
        let channels: u64 = match h.color_type {
            0 => 1,
            2 => 3,
            4 => 2,
            6 => 4,
            _ => 3,
        };
        assert(channels == input_channels(h.color_type));
        assert(h.width * channels <= 0xFFFF_FFFF * 4) by (nonlinear_arith)
            requires
                h.width <= 0xFFFF_FFFF,
                channels <= 4,
        ;
        let samples: u64 = h.width as u64 * channels;
        assert(samples * h.bit_depth <= 0xFFFF_FFFF * 4 * 255) by (nonlinear_arith)
            requires
                samples <= 0xFFFF_FFFF * 4,
                h.bit_depth <= 255,
        ;
        let bits: u64 = samples * h.bit_depth as u64;
        if bits > usize::MAX as u64 {
            return None;
        }
        let row_bytes: usize = input_row_bytes(h.width, h.color_type, h.bit_depth);
        assert(scanlines * row_bytes <= 0xFFFF_FFFF * 0xFFFF_FFFF_FFFF_FFFF) by (nonlinear_arith)
            requires
                scanlines <= 0xFFFF_FFFF,
                row_bytes <= 0xFFFF_FFFF_FFFF_FFFF,
        ;
        if scanlines as u128 * row_bytes as u128 > usize::MAX as u128 {
            return None;
        }
        Some(RowPlan::new(h.height, scanlines, row_bytes))
    }

    /// How many bytes the largest batch takes.
    pub fn buffer_len(&self) -> (r: usize)
        requires
            self@.inv(),
        ensures
            r == self@.scanlines * self@.row_bytes,
    {
        assert(self.row_bytes * self.scanlines == self.scanlines * self.row_bytes)
            by (nonlinear_arith);
        self.row_bytes * self.scanlines as usize
    }

    /// Number of rows that are done.
    pub fn rows_done(&self) -> (r: u32)
        ensures
            r == self@.y,
    {
        self.current_y
    }

    /// The next batch, unless all rows are done.
    pub fn next_batch(&self) -> (r: Option<Batch>)
        requires
            self@.inv(),
        ensures
            r is Some <==> self@.y < self@.height,
            r matches Some(batch) ==> {
                &&& batch.lines == batch_lines(self@.height, self@.scanlines, self@.y)
                &&& batch.bytes == batch.lines * self@.row_bytes
                &&& batch.bytes <= self@.scanlines * self@.row_bytes
            },
    {
        if self.current_y >= self.height {
            return None;
        }
        let left: u32 = self.height - self.current_y;
        let lines: u32 = if self.scanlines <= left { self.scanlines } else { left };
        assert(lines * self.row_bytes <= self.scanlines * self.row_bytes) by (nonlinear_arith)
            requires
                lines <= self.scanlines,
        ;
        Some(Batch { lines, bytes: lines as usize * self.row_bytes })
    }

    /// Takes note that `lines` more rows are done.
    pub fn advance(&mut self, lines: u32)
        requires
            old(self)@.inv(),
            old(self)@.y + lines <= old(self)@.height,
        ensures
            final(self)@ == (Plan { y: old(self)@.y + lines as nat, ..old(self)@ }),
            final(self)@.inv(),
    {
        self.current_y = self.current_y + lines;
    }
}

} // verus!

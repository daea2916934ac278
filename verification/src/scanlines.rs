//! Encoding rows: filter a row, run the compressor until it has taken the row in, write an
//! IDAT chunk whenever its output fills one.
use crate::chunk::{chunk, IDAT};
use crate::driver::{coded, error_after, Action, Event, Flush, Outcome, Request, Z_OK};
use crate::encoder::{
    law_deflate_keeps_order, law_faults_keep_order, law_idat_keeps_order, law_row_keeps_order,
    law_sizes, Encoder, Phase, PngEncoder, OUT_BUF_SIZE,
};
use crate::last_error::{set_last_error, LastError};
use crate::text::signed_decimal;
use vstd::prelude::*;
use vstd::string::*;

verus! {

/// What encoding rows waits for.
#[derive(Clone, Copy, Debug, PartialEq, Eq, Structural)]
pub enum ScanlineStage {
    /// A step of the compressor.
    Deflate,
    /// The write of an IDAT chunk.
    Write,
    /// Nothing.
    Over,
}

/// Row `i` of rows of `width` bytes in `data`.
pub open spec fn row_at(data: Seq<u8>, width: nat, i: int) -> Seq<u8> {
    data.subrange(i * width, (i + 1) * width)
}

/// The first `n` rows of `width` bytes in `data`.
pub open spec fn rows_in(data: Seq<u8>, width: nat, n: nat) -> Seq<Seq<u8>> {
    Seq::new(n, |i: int| row_at(data, width, i))
}

/// The encoding of some rows as a mathematical value.
pub struct Lines {
    /// The rows, one behind the other.
    pub data: Seq<u8>,
    /// How many rows are to be encoded.
    pub count: nat,
    /// How many of them have been filtered.
    pub row: nat,
    pub stage: ScanlineStage,
    /// The rows that the encoder had before.
    pub earlier: Seq<Seq<u8>>,
    /// Nothing had failed or was dropped before.
    pub clean: bool,
}

/// A step in the encoding of rows.
pub struct LineStep {
    pub lines: Lines,
    pub enc: Encoder,
    pub request: Request,
    pub error: Option<Seq<char>>,
}

/// Goes on with the compressor, or first with an IDAT chunk where there is no room left.
pub open spec fn ask(lines: Lines, enc: Encoder) -> LineStep {
    if enc.output.len() == OUT_BUF_SIZE {
        LineStep {
            lines: Lines { stage: ScanlineStage::Write, ..lines },
            enc,
            request: Request::Write(chunk(IDAT@, enc.output)),
            error: None,
        }
    } else {
        LineStep {
            lines: Lines { stage: ScanlineStage::Deflate, ..lines },
            enc,
            request: Request::Deflate(Flush::No),
            error: None,
        }
    }
}

/// Filters the next row and goes on with it. A row of which nothing is handed over is passed
/// by. Without a next row all is done.
pub open spec fn load(lines: Lines, enc: Encoder) -> LineStep
    decreases lines.count - lines.row,
{
    if lines.row >= lines.count {
        LineStep {
            lines: Lines { stage: ScanlineStage::Over, ..lines },
            enc,
            request: Request::Finished(true),
            error: None,
        }
    } else {
        let next = enc.with_row(row_at(lines.data, enc.width, lines.row as int));
        let rest = Lines { row: lines.row + 1, ..lines };
        if next.input.len() > 0 {
            ask(rest, next)
        } else {
            load(rest, next)
        }
    }
}

/// Gives up with a message.
pub open spec fn give_up(lines: Lines, enc: Encoder, message: Seq<char>) -> LineStep {
    LineStep {
        lines: Lines { stage: ScanlineStage::Over, ..lines },
        enc: enc.with_fault(),
        request: Request::Finished(false),
        error: Some(message),
    }
}

/// What is said of a call without an encoder, without rows, or for no rows.
pub open spec fn no_rows_message() -> Seq<char> {
    "Invalid encoder handle, null data buffer, or 0 scanlines specified"@
}

/// Begins the encoding of `count` rows.
pub open spec fn begin_lines(enc: Encoder, data: Seq<u8>, count: nat) -> LineStep {
    let lines = Lines {
        data,
        count,
        row: 0,
        stage: ScanlineStage::Over,
        earlier: enc.history.rows,
        clean: enc.history.faultless && enc.input.len() == 0,
    };
    if count == 0 {
        LineStep {
            lines,
            enc,
            request: Request::Finished(false),
            error: Some(no_rows_message()),
        }
    } else {
        load(lines, enc)
    }
}

/// Goes on after the compressor or the writer.
pub open spec fn line_step(lines: Lines, enc: Encoder, outcome: Outcome) -> LineStep {
    match outcome {
        Outcome::Deflated { code, avail_in, produced } => {
            let after = enc.with_deflated(avail_in, produced);
            if code != Z_OK {
                give_up(lines, after, "ZLIB deflate error code: "@ + signed_decimal(code as int))
            } else if after.input.len() > 0 {
                ask(lines, after)
            } else {
                load(lines, after)
            }
        },
        Outcome::Written => ask(lines, enc.with_idat()),
        _ => give_up(
            lines,
            enc,
            "IO Write Error during IDAT flush: Failed to write IDAT chunk"@,
        ),
    }
}

/// Whether `outcome` answers what is being waited for. A compressor takes no more than it is
/// given and produces no more than it has room for.
pub open spec fn answers(lines: Lines, enc: Encoder, outcome: Outcome) -> bool {
    match outcome {
        Outcome::Deflated { code, avail_in, produced } => {
            &&& lines.stage == ScanlineStage::Deflate
            &&& avail_in <= enc.input.len()
            &&& enc.output.len() + produced.len() <= OUT_BUF_SIZE
        },
        Outcome::Written | Outcome::Failed { .. } => lines.stage == ScanlineStage::Write,
        _ => false,
    }
}

impl Lines {
    /// What holds between two steps. The compressor is run only with input to take in and
    /// with room for output.
    pub open spec fn inv(self, enc: Encoder) -> bool {
        &&& self.row <= self.count <= u32::MAX
        &&& self.count * enc.width <= self.data.len()
        &&& enc.history.rows == self.earlier + rows_in(self.data, enc.width, self.row)
        &&& self.stage != ScanlineStage::Over ==> self.row > 0
        &&& self.stage != ScanlineStage::Over ==> enc.history.faultless == self.clean
        &&& self.stage != ScanlineStage::Over ==> enc.input.len() > 0
        &&& self.stage == ScanlineStage::Deflate ==> enc.output.len() < OUT_BUF_SIZE
        &&& self.stage == ScanlineStage::Write ==> enc.output.len() == OUT_BUF_SIZE
    }

    /// All rows have been filtered and taken in by the compressor, and the encoder is as
    /// faultless as it was.
    pub open spec fn completed(self, enc: Encoder) -> bool {
        &&& enc.history.rows == self.earlier + rows_in(self.data, enc.width, self.count)
        &&& enc.input.len() == 0
        &&& enc.history.faultless == self.clean
    }
}

/// Row `i` lies within the data.
pub(crate) proof fn lemma_row_within(i: nat, count: nat, width: nat, len: nat)
    requires
        i < count,
        count * width <= len,
    ensures
        0 <= i * width <= (i + 1) * width <= len,
        (i + 1) * width - i * width == width,
{
    assert(i * width <= (i + 1) * width <= count * width) by (nonlinear_arith)
        requires
            i < count,
    ;
    assert((i + 1) * width - i * width == width) by (nonlinear_arith);
}

/// One more row.
proof fn lemma_rows_grow(data: Seq<u8>, width: nat, earlier: Seq<Seq<u8>>, n: nat)
    ensures
        (earlier + rows_in(data, width, n)).push(row_at(data, width, n as int)) == earlier
            + rows_in(data, width, n + 1),
{
    assert((earlier + rows_in(data, width, n)).push(row_at(data, width, n as int)) =~= earlier
        + rows_in(data, width, n + 1));
}

/// Loading rows does not depend on what was waited for before.
pub(crate) proof fn lemma_stage_is_free(lines: Lines, enc: Encoder)
    ensures
        load(lines, enc) == load(Lines { stage: ScanlineStage::Over, ..lines }, enc),
    decreases lines.count - lines.row,
{
    if lines.row < lines.count {
        let next = enc.with_row(row_at(lines.data, enc.width, lines.row as int));
        let rest = Lines { row: lines.row + 1, ..lines };
        if next.input.len() == 0 {
            lemma_stage_is_free(rest, next);
        }
    }
}

/// The rows of two batches, one behind the other, are the rows of both as one.
pub proof fn law_batches_join(a: Seq<u8>, n: nat, b: Seq<u8>, m: nat, width: nat)
    requires
        a.len() == n * width,
        b.len() == m * width,
    ensures
        rows_in(a + b, width, n + m) == rows_in(a, width, n) + rows_in(b, width, m),
{
    let both = rows_in(a + b, width, n + m);
    let parts = rows_in(a, width, n) + rows_in(b, width, m);
    assert forall|i: int| 0 <= i < n + m implies both[i] == parts[i] by {
        if i < n {
            lemma_row_within(i as nat, n, width, a.len());
            assert(row_at(a + b, width, i) =~= row_at(a, width, i));
        } else {
            lemma_row_within((i - n) as nat, m, width, b.len());
            assert(i * width == n * width + (i - n) * width) by (nonlinear_arith);
            assert((i + 1) * width == n * width + (i - n + 1) * width) by (nonlinear_arith);
            assert(row_at(a + b, width, i) =~= row_at(b, width, i - n));
        }
    }
    assert(both =~= parts);
}

/// Two states of an encoder for one image.
pub open spec fn same_image(a: Encoder, b: Encoder) -> bool {
    &&& a.settings == b.settings
    &&& a.width == b.width
    &&& a.bpp == b.bpp
}

/// Two states of the encoding of the same rows.
pub open spec fn same_rows(a: Lines, b: Lines) -> bool {
    &&& a.data == b.data
    &&& a.count == b.count
    &&& a.earlier == b.earlier
    &&& a.clean == b.clean
}

/// What a step leads to is in order.
pub open spec fn leads_on(step: LineStep, lines: Lines, enc: Encoder) -> bool {
    &&& step.enc.inv(Phase::Open)
    &&& step.lines.inv(step.enc)
    &&& same_image(step.enc, enc)
    &&& same_rows(step.lines, lines)
    &&& step.request == Request::Finished(true) ==> step.lines.completed(step.enc)
}

/// Loading rows keeps an encoder in order.
proof fn lemma_load_leads_on(lines: Lines, enc: Encoder)
    requires
        enc.inv(Phase::Open),
        lines.inv(enc),
        lines.stage == ScanlineStage::Over,
        lines.count > 0,
        lines.row == 0 ==> lines.clean == (enc.history.faultless && enc.input.len() == 0),
        lines.row > 0 ==> enc.input.len() == 0 && enc.history.faultless == lines.clean,
    ensures
        leads_on(load(lines, enc), lines, enc),
    decreases lines.count - lines.row,
{
    law_sizes(enc, Phase::Open);
    if lines.row < lines.count {
        let row = row_at(lines.data, enc.width, lines.row as int);
        let next = enc.with_row(row);
        let rest = Lines { row: lines.row + 1, ..lines };
        lemma_row_within(lines.row, lines.count, enc.width, lines.data.len());
        lemma_rows_grow(lines.data, enc.width, lines.earlier, lines.row);
        law_row_keeps_order(enc, row);
        law_sizes(next, Phase::Open);
        if next.input.len() == 0 {
            lemma_load_leads_on(rest, next);
        }
    }
}

/// The beginning of the encoding of rows keeps an encoder in order.
pub proof fn law_begin_lines_keeps_order(enc: Encoder, data: Seq<u8>, count: nat)
    requires
        enc.inv(Phase::Open),
        0 < count <= u32::MAX,
        count * enc.width <= data.len(),
    ensures
        ({
            let lines = Lines {
                data,
                count,
                row: 0,
                stage: ScanlineStage::Over,
                earlier: enc.history.rows,
                clean: enc.history.faultless && enc.input.len() == 0,
            };
            leads_on(begin_lines(enc, data, count), lines, enc)
        }),
{
    let lines = Lines {
        data,
        count,
        row: 0,
        stage: ScanlineStage::Over,
        earlier: enc.history.rows,
        clean: enc.history.faultless && enc.input.len() == 0,
    };
    assert(enc.history.rows =~= lines.earlier + rows_in(data, enc.width, 0));
    lemma_load_leads_on(lines, enc);
}

/// Every step of the encoding of rows keeps an encoder in order and works on the same rows of
/// the same image. Behind the last step all rows have been filtered and taken in.
pub proof fn law_line_step_keeps_order(lines: Lines, enc: Encoder, outcome: Outcome)
    requires
        enc.inv(Phase::Open),
        lines.inv(enc),
        answers(lines, enc, outcome),
    ensures
        leads_on(line_step(lines, enc, outcome), lines, enc),
{
    law_sizes(enc, Phase::Open);
    match outcome {
        Outcome::Deflated { code, avail_in, produced } => {
            let after = enc.with_deflated(avail_in, produced);
            law_deflate_keeps_order(enc, avail_in, produced);
            law_faults_keep_order(after, Phase::Open);
            law_sizes(after, Phase::Open);
            if code == Z_OK && after.input.len() == 0 {
                lemma_stage_is_free(lines, after);
                lemma_load_leads_on(Lines { stage: ScanlineStage::Over, ..lines }, after);
            }
        },
        Outcome::Written => {
            law_idat_keeps_order(enc);
        },
        _ => {
            law_faults_keep_order(enc, Phase::Open);
        },
    }
}

/// The encoding of rows of an image.
pub struct ScanlineJob<'a> {
    data: &'a [u8],
    count: u32,
    row: u32,
    stage: ScanlineStage,
    earlier: Ghost<Seq<Seq<u8>>>,
    clean: Ghost<bool>,
}

impl<'a> View for ScanlineJob<'a> {
    type V = Lines;

    closed spec fn view(&self) -> Lines {
        Lines {
            data: self.data@,
            count: self.count as nat,
            row: self.row as nat,
            stage: self.stage,
            earlier: self.earlier@,
            clean: self.clean@,
        }
    }
}

impl<'a> ScanlineJob<'a> {
    /// Goes on with the compressor or an IDAT chunk.
    fn ask(&mut self, enc: &PngEncoder) -> (action: Action)
        requires
            enc.wf(),
            old(self)@.inv(enc@),
            enc@.history.faultless == old(self)@.clean,
            old(self)@.row > 0,
            enc@.input.len() > 0,
        ensures
            final(self)@ == ask(old(self)@, enc@).lines,
            action@ == ask(old(self)@, enc@).request,
            final(self)@.inv(enc@),
    {
        proof {
            law_sizes(enc@, Phase::Open);
        }
        if enc.avail_out() == 0 {
            if let Some(bytes) = enc.write_idat() {
                self.stage = ScanlineStage::Write;
                return Action::Write(bytes);
            }
        }
        self.stage = ScanlineStage::Deflate;
        Action::Deflate(Flush::No)
    }

    /// Filters rows up to the first of which something is handed to the compressor.
    fn load(&mut self, enc: &mut PngEncoder) -> (action: Action)
        requires
            old(enc).wf(),
            old(self)@.inv(old(enc)@),
            old(self)@.row == 0 ==> old(self)@.clean == (old(enc)@.history.faultless && old(
                enc,
            )@.input.len() == 0),
            old(self)@.row > 0 ==> old(enc)@.input.len() == 0,
            old(self)@.row > 0 ==> old(enc)@.history.faultless == old(self)@.clean,
            old(self)@.count > 0,
        ensures
            final(self)@ == load(old(self)@, old(enc)@).lines,
            final(enc)@ == load(old(self)@, old(enc)@).enc,
            action@ == load(old(self)@, old(enc)@).request,
            load(old(self)@, old(enc)@).error is None,
            final(enc).wf(),
            final(self)@.inv(final(enc)@),
            action@ == Request::Finished(true) ==> final(self)@.completed(final(enc)@),
    {
        let ghost lines0 = self@;
        let ghost enc0 = enc@;
        proof {
            lemma_stage_is_free(lines0, enc0);
        }
        self.stage = ScanlineStage::Over;
        while self.row < self.count
            invariant
                enc.wf(),
                self@.inv(enc@),
                lines0 == old(self)@,
                enc0 == old(enc)@,
                load(lines0, enc0) == load(self@, enc@),
                self@.stage == ScanlineStage::Over,
                self@.row == 0 ==> self@.clean == (enc@.history.faultless && enc@.input.len()
                    == 0),
                self@.row > 0 ==> enc@.input.len() == 0,
                self@.row > 0 ==> enc@.history.faultless == self@.clean,
                self@.count > 0,
            decreases self.count - self.row,
        {
            let ghost before = enc@;
            let ghost at = self@;
            let width: usize = enc.row_len();
            let i: usize = self.row as usize;
            proof {
                lemma_row_within(i as nat, self.count as nat, width as nat, self.data@.len());
                lemma_rows_grow(self.data@, width as nat, self.earlier@, i as nat);
            }
            let end: usize = self.data.len();
            assert((i + 1) * width <= end);
            let row: &[u8] = &self.data[i * width..(i + 1) * width];
            enc.prepare_row(row);
            self.row = self.row + 1;
            if enc.avail_in() > 0 {
                return self.ask(enc);
            }
        }
        Action::Finished(true)
    }

    /// Gives up with a message.
    fn give_up(&mut self, enc: &mut PngEncoder, last: &mut LastError, message: &str) -> (action:
        Action)
        requires
            old(enc).wf(),
            old(self)@.inv(old(enc)@),
        ensures
            final(self)@ == give_up(old(self)@, old(enc)@, message@).lines,
            final(enc)@ == give_up(old(self)@, old(enc)@, message@).enc,
            action@ == Request::Finished(false),
            final(last)@ == message@,
            final(enc).wf(),
            final(self)@.inv(final(enc)@),
    {
        set_last_error(last, message);
        enc.note_fault();
        self.stage = ScanlineStage::Over;
        Action::Finished(false)
    }

    /// Goes on after the compressor.
    fn after_deflate(
        &mut self,
        enc: &mut PngEncoder,
        last: &mut LastError,
        code: i32,
        avail_in: u32,
        produced: &[u8],
    ) -> (action: Action)
        requires
            old(enc).wf(),
            old(self)@.inv(old(enc)@),
            old(self)@.stage == ScanlineStage::Deflate,
            avail_in <= old(enc)@.input.len(),
            old(enc)@.output.len() + produced@.len() <= OUT_BUF_SIZE,
        ensures
            ({
                let step = line_step(
                    old(self)@,
                    old(enc)@,
                    Outcome::Deflated { code, avail_in: avail_in as nat, produced: produced@ },
                );
                &&& final(self)@ == step.lines
                &&& final(enc)@ == step.enc
                &&& action@ == step.request
                &&& final(last)@ == error_after(old(last)@, step.error)
            }),
            final(enc).wf(),
            final(self)@.inv(final(enc)@),
            action@ == Request::Finished(true) ==> final(self)@.completed(final(enc)@),
    {
        enc.note_deflated(avail_in, produced);
        proof {
            lemma_stage_is_free(self@, enc@);
        }
        self.stage = ScanlineStage::Over;
        if code != Z_OK {
            let message = coded("ZLIB deflate error code: ", code);
            return self.give_up(enc, last, message.as_str());
        }
        if enc.avail_in() > 0 {
            self.ask(enc)
        } else {
            self.load(enc)
        }
    }

    /// Goes on after the compressor or the writer, up to the next action. `Finished(true)`
    /// comes when all rows have been filtered and taken in by the compressor.
    pub fn step(&mut self, enc: &mut PngEncoder, last: &mut LastError, event: Event<'_>) -> (action:
        Action)
        requires
            old(enc).wf(),
            old(self)@.inv(old(enc)@),
            answers(old(self)@, old(enc)@, event@),
        ensures
            ({
                let step = line_step(old(self)@, old(enc)@, event@);
                &&& final(self)@ == step.lines
                &&& final(enc)@ == step.enc
                &&& action@ == step.request
                &&& final(last)@ == error_after(old(last)@, step.error)
            }),
            final(enc).wf(),
            final(self)@.inv(final(enc)@),
            action@ == Request::Finished(true) ==> final(self)@.completed(final(enc)@),
    {
        match event {
            Event::Deflated { code, avail_in, produced } => {
                self.after_deflate(enc, last, code, avail_in, produced)
            },
            Event::Written => {
                enc.note_idat();
                self.stage = ScanlineStage::Over;
                self.ask(enc)
            },
            _ => self.give_up(
                enc,
                last,
                "IO Write Error during IDAT flush: Failed to write IDAT chunk",
            ),
        }
    }
}

/// Whether there is an encoder, data, and at least one row. If not, that becomes the last
/// error.
pub fn check_scanlines(last: &mut LastError, has_encoder: bool, has_data: bool, num_scanlines: u32)
    -> (ok: bool)
    ensures
        ok == (has_encoder && has_data && num_scanlines != 0),
        final(last)@ == if ok {
            old(last)@
        } else {
            no_rows_message()
        },
{
    if !has_encoder || !has_data || num_scanlines == 0 {
        set_last_error(
            last,
            "Invalid encoder handle, null data buffer, or 0 scanlines specified",
        );
        return false;
    }
    true
}

/// Begins to encode the first `num_scanlines` rows of `data`. The dialogue goes on with
/// `ScanlineJob::step` unless the first action is `Finished`.
pub fn encode_scanlines<'a>(
    enc: &mut PngEncoder,
    last: &mut LastError,
    data: &'a [u8],
    num_scanlines: u32,
) -> (r: (ScanlineJob<'a>, Action))
    requires
        old(enc).wf(),
        num_scanlines * old(enc)@.width <= data@.len(),
    ensures
        ({
            let step = begin_lines(old(enc)@, data@, num_scanlines as nat);
            &&& r.0@ == step.lines
            &&& final(enc)@ == step.enc
            &&& r.1@ == step.request
            &&& final(last)@ == error_after(old(last)@, step.error)
        }),
        final(enc).wf(),
        r.0@.inv(final(enc)@),
        r.1@ == Request::Finished(true) ==> r.0@.completed(final(enc)@),
{
    let ghost clean = enc@.history.faultless && enc@.input.len() == 0;
    let mut job = ScanlineJob {
        data,
        count: num_scanlines,
        row: 0,
        stage: ScanlineStage::Over,
        earlier: Ghost(enc@.history.rows),
        clean: Ghost(clean),
    };
    assert(enc@.history.rows =~= job@.earlier + rows_in(data@, enc@.width, 0));
    if !check_scanlines(last, true, true, num_scanlines) {
        return (job, Action::Finished(false));
    }
    let action = job.load(enc);
    (job, action)
}

} // verus!

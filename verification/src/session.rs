//! A whole session: a file is opened, rows are encoded in batches, the file is closed.
//!
//! Here a session is a sequence of outcomes, those of the actions that were asked for. What
//! the writer was asked to write, read as a PNG file, gives the image back.
use crate::closing::{
    begin_close, close_step, is_whole, law_begin_close_keeps_order, law_close_step_keeps_order,
    law_whole_file_gives_image_back, law_whole_file_is_the_cut_stream, law_whole_file_reads_back,
    CloseStage, CloseStep,
};
use crate::driver::{Outcome, Request};
use crate::encoder::{
    blank, channels_of, law_color_types, law_opened_has_the_sizes, law_opened_is_in_order, opened,
    Encoder, Phase, Settings, OUT_BUF_SIZE,
};
use crate::png_file::{cut, joined, law_cut_is_exact, png_file, read_png, ReadPng};
use crate::scanlines::{
    answers, begin_lines, law_batches_join, law_begin_lines_keeps_order,
    law_line_step_keeps_order, line_step, load, row_at, rows_in, same_image, LineStep, Lines,
    ScanlineStage,
};
use crate::unfilter::{line_bytes, read_rows, step_back};
use vstd::prelude::*;

verus! {

/// The encoding of rows after these outcomes.
pub open spec fn run_lines(step: LineStep, outcomes: Seq<Outcome>) -> LineStep
    decreases outcomes.len(),
{
    if outcomes.len() == 0 {
        step
    } else {
        let before = run_lines(step, outcomes.drop_last());
        line_step(before.lines, before.enc, outcomes.last())
    }
}

/// Each outcome answers what was asked for.
pub open spec fn lines_answered(step: LineStep, outcomes: Seq<Outcome>) -> bool
    decreases outcomes.len(),
{
    outcomes.len() == 0 || {
        let before = run_lines(step, outcomes.drop_last());
        &&& lines_answered(step, outcomes.drop_last())
        &&& answers(before.lines, before.enc, outcomes.last())
    }
}

/// The closing of a file after these outcomes.
pub open spec fn run_close(step: CloseStep, outcomes: Seq<Outcome>) -> CloseStep
    decreases outcomes.len(),
{
    if outcomes.len() == 0 {
        step
    } else {
        close_step(run_close(step, outcomes.drop_last()).closing, outcomes.last())
    }
}

/// Each outcome answers what was asked for.
pub open spec fn close_answered(step: CloseStep, outcomes: Seq<Outcome>) -> bool
    decreases outcomes.len(),
{
    outcomes.len() == 0 || {
        &&& close_answered(step, outcomes.drop_last())
        &&& run_close(step, outcomes.drop_last()).closing.answered_by(outcomes.last())
    }
}

/// The bytes of a request that was carried out, if it was to write some.
pub open spec fn bytes_out(request: Request, outcome: Outcome) -> Seq<u8> {
    match (request, outcome) {
        (Request::Write(bytes), Outcome::Written) => bytes,
        (_, _) => Seq::empty(),
    }
}

/// All that has been written in the encoding of rows.
pub open spec fn lines_out(step: LineStep, outcomes: Seq<Outcome>) -> Seq<u8>
    decreases outcomes.len(),
{
    if outcomes.len() == 0 {
        Seq::empty()
    } else {
        lines_out(step, outcomes.drop_last()) + bytes_out(
            run_lines(step, outcomes.drop_last()).request,
            outcomes.last(),
        )
    }
}

/// All that has been written in the closing of a file.
pub open spec fn close_out(step: CloseStep, outcomes: Seq<Outcome>) -> Seq<u8>
    decreases outcomes.len(),
{
    if outcomes.len() == 0 {
        Seq::empty()
    } else {
        close_out(step, outcomes.drop_last()) + bytes_out(
            run_close(step, outcomes.drop_last()).request,
            outcomes.last(),
        )
    }
}

/// What the compressor has taken in in one step: the front of its input, up to what it left.
pub open spec fn taken_in(enc: Encoder, outcome: Outcome) -> Seq<u8> {
    match outcome {
        Outcome::Deflated { avail_in, .. } => enc.input.subrange(0, enc.input.len() - avail_in),
        _ => Seq::empty(),
    }
}

/// All that the compressor has taken in in the encoding of rows.
pub open spec fn lines_in(step: LineStep, outcomes: Seq<Outcome>) -> Seq<u8>
    decreases outcomes.len(),
{
    if outcomes.len() == 0 {
        Seq::empty()
    } else {
        lines_in(step, outcomes.drop_last()) + taken_in(
            run_lines(step, outcomes.drop_last()).enc,
            outcomes.last(),
        )
    }
}

/// What the compressor has produced in one step.
pub open spec fn produced_in(outcome: Outcome) -> Seq<u8> {
    match outcome {
        Outcome::Deflated { produced, .. } => produced,
        _ => Seq::empty(),
    }
}

/// All that the compressor has produced.
pub open spec fn compressed(outcomes: Seq<Outcome>) -> Seq<u8>
    decreases outcomes.len(),
{
    if outcomes.len() == 0 {
        Seq::empty()
    } else {
        compressed(outcomes.drop_last()) + produced_in(outcomes.last())
    }
}

/// A batch of rows, and the outcomes of the actions that its encoding asked for.
pub struct BatchRun {
    pub data: Seq<u8>,
    pub count: nat,
    pub outcomes: Seq<Outcome>,
}

impl BatchRun {
    /// The first action for the batch.
    pub open spec fn first(self, enc: Encoder) -> LineStep {
        begin_lines(enc, self.data, self.count)
    }

    /// The batch has at least one row and is complete, each outcome answered what was asked
    /// for, and the encoding finished well.
    pub open spec fn went_well(self, enc: Encoder) -> bool {
        &&& 0 < self.count <= u32::MAX
        &&& self.data.len() == self.count * enc.width
        &&& lines_answered(self.first(enc), self.outcomes)
        &&& run_lines(self.first(enc), self.outcomes).request == Request::Finished(true)
    }
}

/// The encoder after these batches.
pub open spec fn after_batches(s: Settings, batches: Seq<BatchRun>) -> Encoder
    decreases batches.len(),
{
    if batches.len() == 0 {
        opened(s)
    } else {
        let batch = batches.last();
        let enc = after_batches(s, batches.drop_last());
        run_lines(batch.first(enc), batch.outcomes).enc
    }
}

/// All batches went well.
pub open spec fn batches_went_well(s: Settings, batches: Seq<BatchRun>) -> bool
    decreases batches.len(),
{
    batches.len() == 0 || {
        &&& batches_went_well(s, batches.drop_last())
        &&& batches.last().went_well(after_batches(s, batches.drop_last()))
    }
}

/// The rows of all batches, one behind the other.
pub open spec fn image_data(batches: Seq<BatchRun>) -> Seq<u8>
    decreases batches.len(),
{
    if batches.len() == 0 {
        Seq::empty()
    } else {
        image_data(batches.drop_last()) + batches.last().data
    }
}

/// Number of rows in all batches.
pub open spec fn row_count(batches: Seq<BatchRun>) -> nat
    decreases batches.len(),
{
    if batches.len() == 0 {
        0
    } else {
        row_count(batches.drop_last()) + batches.last().count
    }
}

/// All that has been written from the signature to the end of these batches.
pub open spec fn batches_out(s: Settings, batches: Seq<BatchRun>) -> Seq<u8>
    decreases batches.len(),
{
    if batches.len() == 0 {
        opened(s).history.written
    } else {
        let batch = batches.last();
        let enc = after_batches(s, batches.drop_last());
        batches_out(s, batches.drop_last()) + lines_out(batch.first(enc), batch.outcomes)
    }
}

/// All that the compressor has taken in for these batches.
pub open spec fn batches_in(s: Settings, batches: Seq<BatchRun>) -> Seq<u8>
    decreases batches.len(),
{
    if batches.len() == 0 {
        Seq::empty()
    } else {
        let batch = batches.last();
        let enc = after_batches(s, batches.drop_last());
        batches_in(s, batches.drop_last()) + lines_in(batch.first(enc), batch.outcomes)
    }
}

/// All that the compressor has produced for these batches.
pub open spec fn batches_compressed(batches: Seq<BatchRun>) -> Seq<u8>
    decreases batches.len(),
{
    if batches.len() == 0 {
        Seq::empty()
    } else {
        batches_compressed(batches.drop_last()) + compressed(batches.last().outcomes)
    }
}

/// The closing was carried out, each outcome answered what was asked for, and the closing
/// finished well.
pub open spec fn close_went_well(enc: Encoder, outcomes: Seq<Outcome>) -> bool {
    &&& close_answered(begin_close(enc), outcomes)
    &&& run_close(begin_close(enc), outcomes).request == Request::Finished(true)
}

/// Loading rows writes nothing and runs no compressor. Where a write is asked for, it is that
/// of the encoder's output.
proof fn lemma_load_is_quiet(lines: Lines, enc: Encoder)
    ensures
        ({
            let step = load(lines, enc);
            &&& step.enc.history.written == enc.history.written
            &&& step.enc.history.produced == enc.history.produced
            &&& step.enc.history.consumed == enc.history.consumed
            &&& asks_for_output(step)
        }),
    decreases lines.count - lines.row,
{
    if lines.row < lines.count {
        let next = enc.with_row(row_at(lines.data, enc.width, lines.row as int));
        if next.input.len() == 0 {
            lemma_load_is_quiet(Lines { row: lines.row + 1, ..lines }, next);
        }
    }
}

/// Where a write is waited for, it is that of the encoder's output.
spec fn asks_for_output(step: LineStep) -> bool {
    step.lines.stage == ScanlineStage::Write ==> step.request == Request::Write(
        crate::chunk::chunk(crate::chunk::IDAT@, step.enc.output),
    )
}

/// Three pieces one behind the other, however they are put together.
pub(crate) proof fn lemma_three(a: Seq<u8>, b: Seq<u8>, c: Seq<u8>)
    ensures
        (a + b) + c == a + (b + c),
{
    assert((a + b) + c =~= a + (b + c));
}

/// A step of the encoding of rows puts on record what was written and produced.
proof fn lemma_line_step_record(before: LineStep, outcome: Outcome)
    requires
        asks_for_output(before),
        answers(before.lines, before.enc, outcome),
    ensures
        ({
            let step = line_step(before.lines, before.enc, outcome);
            let h = before.enc.history;
            &&& step.enc.history.written == h.written + bytes_out(before.request, outcome)
            &&& step.enc.history.produced == h.produced + produced_in(outcome)
            &&& step.enc.history.consumed == h.consumed + taken_in(before.enc, outcome)
            &&& asks_for_output(step)
        }),
{
    let h = before.enc.history;
    assert(h.consumed + Seq::empty() =~= h.consumed);
    assert(h.written + Seq::empty() =~= h.written);
    assert(h.produced + Seq::empty() =~= h.produced);
    match outcome {
        Outcome::Deflated { avail_in, produced, .. } => {
            lemma_load_is_quiet(before.lines, before.enc.with_deflated(avail_in, produced));
        },
        _ => {},
    }
}

/// A run of the encoding of rows keeps the encoder in order and works on the same rows of the
/// same image. What was written and what the compressor produced is what the encoder has on
/// record, and if the run finished well all rows have been filtered and taken in.
pub proof fn law_lines_run(enc: Encoder, batch: BatchRun)
    requires
        enc.inv(Phase::Open),
        0 < batch.count <= u32::MAX,
        batch.count * enc.width <= batch.data.len(),
        lines_answered(batch.first(enc), batch.outcomes),
    ensures
        ({
            let step = run_lines(batch.first(enc), batch.outcomes);
            let h = step.enc.history;
            &&& step.enc.inv(Phase::Open)
            &&& step.lines.inv(step.enc)
            &&& same_image(step.enc, enc)
            &&& h.written == enc.history.written + lines_out(batch.first(enc), batch.outcomes)
            &&& h.produced == enc.history.produced + compressed(batch.outcomes)
            &&& h.consumed == enc.history.consumed + lines_in(batch.first(enc), batch.outcomes)
            &&& step.request == Request::Finished(true) ==> {
                &&& h.rows == enc.history.rows + rows_in(batch.data, enc.width, batch.count)
                &&& h.faultless == (enc.history.faultless && enc.input.len() == 0)
                &&& step.enc.input.len() == 0
            }
        }),
{
    lemma_lines_run(enc, batch);
}

/// As the law, with what the induction needs besides.
proof fn lemma_lines_run(enc: Encoder, batch: BatchRun)
    requires
        enc.inv(Phase::Open),
        0 < batch.count <= u32::MAX,
        batch.count * enc.width <= batch.data.len(),
        lines_answered(batch.first(enc), batch.outcomes),
    ensures
        ({
            let step = run_lines(batch.first(enc), batch.outcomes);
            let h = step.enc.history;
            &&& step.enc.inv(Phase::Open)
            &&& step.lines.inv(step.enc)
            &&& same_image(step.enc, enc)
            &&& step.lines.data == batch.data
            &&& step.lines.count == batch.count
            &&& step.lines.earlier == enc.history.rows
            &&& step.lines.clean == (enc.history.faultless && enc.input.len() == 0)
            &&& step.request == Request::Finished(true) ==> step.lines.completed(step.enc)
            &&& asks_for_output(step)
            &&& h.written == enc.history.written + lines_out(batch.first(enc), batch.outcomes)
            &&& h.produced == enc.history.produced + compressed(batch.outcomes)
            &&& h.consumed == enc.history.consumed + lines_in(batch.first(enc), batch.outcomes)
        }),
    decreases batch.outcomes.len(),
{
    let first = batch.first(enc);
    if batch.outcomes.len() == 0 {
        law_begin_lines_keeps_order(enc, batch.data, batch.count);
        let lines = Lines {
            data: batch.data,
            count: batch.count,
            row: 0,
            stage: ScanlineStage::Over,
            earlier: enc.history.rows,
            clean: enc.history.faultless && enc.input.len() == 0,
        };
        lemma_load_is_quiet(lines, enc);
        assert(enc.history.written =~= enc.history.written + lines_out(first, batch.outcomes));
        assert(enc.history.produced =~= enc.history.produced + compressed(batch.outcomes));
        assert(enc.history.consumed =~= enc.history.consumed + lines_in(first, batch.outcomes));
    } else {
        let shorter = BatchRun { outcomes: batch.outcomes.drop_last(), ..batch };
        lemma_lines_run(enc, shorter);
        let before = run_lines(first, shorter.outcomes);
        let outcome = batch.outcomes.last();
        law_line_step_keeps_order(before.lines, before.enc, outcome);
        lemma_line_step_record(before, outcome);
        lemma_three(
            enc.history.written,
            lines_out(first, shorter.outcomes),
            bytes_out(before.request, outcome),
        );
        lemma_three(
            enc.history.produced,
            compressed(shorter.outcomes),
            produced_in(outcome),
        );
        lemma_three(
            enc.history.consumed,
            lines_in(first, shorter.outcomes),
            taken_in(before.enc, outcome),
        );
    }
}

/// A run of the closing keeps the rows and the image. What was written and what the compressor
/// produced is what the encoder has on record, and if the run finished well the file is whole.
pub proof fn law_close_run(enc: Encoder, outcomes: Seq<Outcome>)
    requires
        enc.inv(Phase::Open),
        close_answered(begin_close(enc), outcomes),
    ensures
        ({
            let step = run_close(begin_close(enc), outcomes);
            let after = step.closing.enc;
            let h = after.history;
            &&& step.closing.in_order()
            &&& same_image(after, enc)
            &&& h.rows == enc.history.rows
            &&& h.written == enc.history.written + close_out(begin_close(enc), outcomes)
            &&& h.produced == enc.history.produced + compressed(outcomes)
            &&& h.consumed == enc.history.consumed
            &&& step.request == Request::Finished(true) ==> {
                &&& h.faultless == (enc.history.faultless && enc.input.len() == 0)
                &&& is_whole(after)
                &&& after.inv(Phase::Ended)
            }
        }),
{
    lemma_close_run(enc, outcomes);
}

/// Where a write is waited for, it is that of the encoder's output or of the end chunk.
spec fn asks_to_write(step: CloseStep) -> bool {
    let stage = step.closing.stage;
    &&& stage == CloseStage::Write || stage == CloseStage::WriteRest ==> step.request
        == Request::Write(crate::chunk::chunk(crate::chunk::IDAT@, step.closing.enc.output))
    &&& stage == CloseStage::WriteEnd ==> step.request == Request::Write(
        crate::png_file::end_chunk(),
    )
}

/// A step of the closing puts on record what was written and produced.
proof fn lemma_close_step_record(before: CloseStep, outcome: Outcome)
    requires
        asks_to_write(before),
        before.closing.in_order(),
        before.closing.answered_by(outcome),
    ensures
        ({
            let step = close_step(before.closing, outcome);
            let h = before.closing.enc.history;
            let after = step.closing.enc.history;
            &&& after.written == h.written + bytes_out(before.request, outcome)
            &&& after.produced == h.produced + produced_in(outcome)
            &&& after.consumed == h.consumed
            &&& asks_to_write(step)
            &&& step.closing.stage == CloseStage::Over <==> step.request is Finished
        }),
{
    let h = before.closing.enc.history;
    assert(h.consumed + before.closing.enc.input.take(0) =~= h.consumed);
    assert(h.written + Seq::empty() =~= h.written);
    assert(h.produced + Seq::empty() =~= h.produced);
}

/// As the law, with what the induction needs besides.
proof fn lemma_close_run(enc: Encoder, outcomes: Seq<Outcome>)
    requires
        enc.inv(Phase::Open),
        close_answered(begin_close(enc), outcomes),
    ensures
        ({
            let step = run_close(begin_close(enc), outcomes);
            let after = step.closing.enc;
            let h = after.history;
            &&& step.closing.in_order()
            &&& same_image(after, enc)
            &&& asks_to_write(step)
            &&& h.rows == enc.history.rows
            &&& h.written == enc.history.written + close_out(begin_close(enc), outcomes)
            &&& h.produced == enc.history.produced + compressed(outcomes)
            &&& h.consumed == enc.history.consumed
            &&& step.closing.stage == CloseStage::Over <==> step.request is Finished
            &&& step.request != Request::Finished(false) ==> h.faultless == (
            enc.history.faultless && enc.input.len() == 0)
            &&& step.request == Request::Finished(true) ==> is_whole(after) && after.inv(
                Phase::Ended,
            )
        }),
    decreases outcomes.len(),
{
    let first = begin_close(enc);
    if outcomes.len() == 0 {
        law_begin_close_keeps_order(enc);
        assert(asks_to_write(first));
        assert(enc.history.written =~= enc.history.written + close_out(first, outcomes));
        assert(enc.history.produced =~= enc.history.produced + compressed(outcomes));
    } else {
        lemma_close_run(enc, outcomes.drop_last());
        let before = run_close(first, outcomes.drop_last());
        let outcome = outcomes.last();
        law_close_step_keeps_order(before.closing, outcome);
        lemma_close_step_record(before, outcome);
        lemma_three(
            enc.history.written,
            close_out(first, outcomes.drop_last()),
            bytes_out(before.request, outcome),
        );
        lemma_three(
            enc.history.produced,
            compressed(outcomes.drop_last()),
            produced_in(outcome),
        );
    }
}

/// The end of a closing that went well: the writer was flushed, the compressor released, and
/// nothing was written behind that.
pub open spec fn is_flushed(enc: Encoder, outcomes: Seq<Outcome>) -> bool {
    let first = begin_close(enc);
    let n = outcomes.len();
    let before = outcomes.drop_last().drop_last();
    &&& n >= 2
    &&& run_close(first, before).request == Request::FlushWriter
    &&& outcomes[n - 2] == Outcome::Flushed
    &&& run_close(first, outcomes.drop_last()).request == Request::EndDeflate
    &&& outcomes[n - 1] == Outcome::Ended
    &&& close_out(first, outcomes) == close_out(first, before)
}

/// A closing goes well only if everything written has been flushed.
pub proof fn law_close_flushes(enc: Encoder, outcomes: Seq<Outcome>)
    requires
        close_went_well(enc, outcomes),
    ensures
        is_flushed(enc, outcomes),
{
    lemma_end_before(enc, outcomes);
    lemma_release_before(enc, outcomes.drop_last());
    lemma_quiet_step(begin_close(enc), outcomes.drop_last());
    lemma_quiet_step(begin_close(enc), outcomes);
}

/// Nothing is written where nothing was asked to be written.
proof fn lemma_quiet_step(step: CloseStep, outcomes: Seq<Outcome>)
    requires
        outcomes.len() > 0,
        !(run_close(step, outcomes.drop_last()).request is Write),
    ensures
        close_out(step, outcomes) == close_out(step, outcomes.drop_last()),
{
    let before = close_out(step, outcomes.drop_last());
    assert(before + Seq::empty() =~= before);
}

/// What stands before a good end: the release of the compressor.
proof fn lemma_end_before(enc: Encoder, outcomes: Seq<Outcome>)
    requires
        close_went_well(enc, outcomes),
    ensures
        outcomes.len() > 0,
        outcomes.last() == Outcome::Ended,
        close_answered(begin_close(enc), outcomes.drop_last()),
        run_close(begin_close(enc), outcomes.drop_last()).closing.stage == CloseStage::End,
{
}

/// What stands before the release of the compressor: the flush.
proof fn lemma_release_before(enc: Encoder, outcomes: Seq<Outcome>)
    requires
        close_answered(begin_close(enc), outcomes),
        run_close(begin_close(enc), outcomes).closing.stage == CloseStage::End,
    ensures
        outcomes.len() > 0,
        outcomes.last() == Outcome::Flushed,
        run_close(begin_close(enc), outcomes).request == Request::EndDeflate,
        run_close(begin_close(enc), outcomes.drop_last()).request == Request::FlushWriter,
{
    lemma_flush_asks(enc, outcomes.drop_last());
}

/// Where a flush is waited for, it was asked for.
proof fn lemma_flush_asks(enc: Encoder, outcomes: Seq<Outcome>)
    requires
        close_answered(begin_close(enc), outcomes),
    ensures
        run_close(begin_close(enc), outcomes).closing.stage == CloseStage::Flush ==> run_close(
            begin_close(enc),
            outcomes,
        ).request == Request::FlushWriter,
{
}

/// After batches that went well the encoder is in order and has all their rows.
proof fn lemma_after_batches(s: Settings, batches: Seq<BatchRun>)
    requires
        channels_of(s.color_type) is Some,
        batches_went_well(s, batches),
    ensures
        ({
            let enc = after_batches(s, batches);
            let h = enc.history;
            &&& enc.inv(Phase::Open)
            &&& same_image(enc, opened(s))
            &&& enc.input.len() == 0
            &&& h.faultless
            &&& h.written == batches_out(s, batches)
            &&& h.produced == batches_compressed(batches)
            &&& h.consumed == batches_in(s, batches)
            &&& image_data(batches).len() == row_count(batches) * enc.width
            &&& h.rows == rows_in(image_data(batches), enc.width, row_count(batches))
        }),
    decreases batches.len(),
{
    let width = opened(s).width;
    if batches.len() == 0 {
        law_opened_is_in_order(s);
        assert(0 * width == 0) by (nonlinear_arith);
        assert(opened(s).history.rows =~= rows_in(image_data(batches), width, 0));
    } else {
        let most = batches.drop_last();
        let batch = batches.last();
        lemma_after_batches(s, most);
        let enc = after_batches(s, most);
        law_lines_run(enc, batch);
        law_batches_join(image_data(most), row_count(most), batch.data, batch.count, width);
        assert((row_count(most) + batch.count) * width == row_count(most) * width + batch.count
            * width) by (nonlinear_arith);
    }
}

/// Rows one behind the other are the data that they were cut out of.
pub proof fn law_rows_make_up_the_data(data: Seq<u8>, width: nat, n: nat)
    requires
        data.len() == n * width,
    ensures
        joined(rows_in(data, width, n)) == data,
    decreases n,
{
    let rows = rows_in(data, width, n);
    if n == 0 {
        assert(0 * width == 0) by (nonlinear_arith);
        assert(joined(rows) =~= data);
    } else {
        let m = (n - 1) as nat;
        assert(n * width == m * width + width) by (nonlinear_arith)
            requires
                n == m + 1,
        ;
        let front = data.take((m * width) as int);
        law_rows_make_up_the_data(front, width, m);
        assert forall|i: int| 0 <= i < m implies rows.drop_last()[i] == rows_in(
            front,
            width,
            m,
        )[i] by {
            assert(0 <= i * width <= (i + 1) * width <= m * width) by (nonlinear_arith)
                requires
                    0 <= i < m,
            ;
            assert(row_at(data, width, i) =~= row_at(front, width, i));
        }
        assert(rows.drop_last() =~= rows_in(front, width, m));
        assert(joined(rows) =~= data);
    }
}

/// A session that went well leaves a PNG file and nothing else: signature, header, what the
/// compressor produced in IDAT chunks that are full up to the last one, and the end chunk. All
/// of it has been flushed. There is at least one IDAT chunk if the compressor produced anything.
pub proof fn law_session_leaves_the_file(
    s: Settings,
    batches: Seq<BatchRun>,
    closing: Seq<Outcome>,
)
    requires
        channels_of(s.color_type) is Some,
        batches_went_well(s, batches),
        close_went_well(after_batches(s, batches), closing),
    ensures
        ({
            let enc = after_batches(s, batches);
            let file = batches_out(s, batches) + close_out(begin_close(enc), closing);
            let stream = batches_compressed(batches) + compressed(closing);
            let payloads = cut(stream, OUT_BUF_SIZE as nat);
            &&& file == png_file(s.width, s.height, s.bit_depth, s.color_type, payloads)
            &&& joined(payloads) == stream
            &&& forall|i: int|
                0 <= i < payloads.len() ==> 1 <= (#[trigger] payloads[i]).len() <= 2_097_152
            &&& forall|i: int|
                0 <= i < payloads.len() - 1 ==> (#[trigger] payloads[i]).len() == 2_097_152
            &&& stream.len() > 0 ==> payloads.len() >= 1
            &&& is_flushed(enc, closing)
        }),
{
    let enc = after_batches(s, batches);
    lemma_after_batches(s, batches);
    law_close_run(enc, closing);
    law_close_flushes(enc, closing);
    let end = run_close(begin_close(enc), closing).closing.enc;
    law_whole_file_is_the_cut_stream(end);
    law_cut_is_exact(end.history.produced, OUT_BUF_SIZE as nat);
}

/// A session that went well gives the image back. A reader of all that was written, from the
/// signature to the end chunk, finds the settings and all that the compressor produced; and
/// what the compressor was given reads, row by row, as the data of all batches, unless a row
/// is longer than 32 bits can count.
pub proof fn law_session_gives_image_back(
    s: Settings,
    batches: Seq<BatchRun>,
    closing: Seq<Outcome>,
)
    requires
        channels_of(s.color_type) is Some,
        batches_went_well(s, batches),
        close_went_well(after_batches(s, batches), closing),
    ensures
        ({
            let enc = after_batches(s, batches);
            let file = batches_out(s, batches) + close_out(begin_close(enc), closing);
            let taken_in = run_close(begin_close(enc), closing).closing.enc.history.consumed;
            &&& read_png(file) == Some(
                ReadPng {
                    width: s.width as nat,
                    height: s.height as nat,
                    bit_depth: s.bit_depth,
                    color_type: s.color_type,
                    compressed: batches_compressed(batches) + compressed(closing),
                },
            )
            &&& enc.width + 1 <= u32::MAX || batches.len() == 0 ==> joined(
                read_rows(taken_in, row_count(batches), enc.width, blank(enc.width), enc.bpp),
            ) == image_data(batches)
        }),
{
    let enc = after_batches(s, batches);
    lemma_after_batches(s, batches);
    law_close_run(enc, closing);
    let end = run_close(begin_close(enc), closing).closing.enc;
    law_whole_file_reads_back(end);
    if enc.width + 1 <= u32::MAX || batches.len() == 0 {
        law_whole_file_gives_image_back(end);
    }
    law_rows_make_up_the_data(image_data(batches), enc.width, row_count(batches));
}

/// The rows that a reader of the file finds in the stream that it gets by inflating: it knows
/// width, bit depth and color type from the header.
pub open spec fn image_rows(png: ReadPng, stream: Seq<u8>, n: nat) -> Seq<Seq<u8>> {
    let line = line_bytes(png.width, png.bit_depth, png.color_type);
    read_rows(
        stream,
        n,
        line,
        Seq::new(line, |i: int| 0u8),
        step_back(png.bit_depth, png.color_type),
    )
}

/// A session that went well reads as the image, to a reader that knows nothing but the file and
/// the stream that the compressor was given: with the sizes that the header found in the file
/// calls for, the stream gives the rows of all batches, one behind the other. (This leaves out
/// rows longer than 32 bits can count.)
pub proof fn law_session_reads_as_the_image(
    s: Settings,
    batches: Seq<BatchRun>,
    closing: Seq<Outcome>,
)
    requires
        s.color_type == 0 || s.color_type == 2 || s.color_type == 3 || s.color_type == 4
            || s.color_type == 6,
        batches_went_well(s, batches),
        close_went_well(after_batches(s, batches), closing),
    ensures
        ({
            let enc = after_batches(s, batches);
            let file = batches_out(s, batches) + close_out(begin_close(enc), closing);
            read_png(file) matches Some(png) && {
                &&& png.width == s.width
                &&& png.height == s.height
                &&& png.bit_depth == s.bit_depth
                &&& png.color_type == s.color_type
                &&& png.compressed == batches_compressed(batches) + compressed(closing)
                &&& line_bytes(png.width, png.bit_depth, png.color_type) < 0xFFFF_FFFF
                    || batches.len() == 0 ==> joined(
                    image_rows(png, batches_in(s, batches), row_count(batches)),
                ) == image_data(batches)
            }
        }),
{
    law_color_types(s.color_type);
    law_opened_has_the_sizes(s);
    law_session_gives_image_back(s, batches, closing);
    lemma_after_batches(s, batches);
    let enc = after_batches(s, batches);
    law_close_run(enc, closing);
    assert(blank(enc.width) =~= Seq::new(enc.width, |i: int| 0u8));
}

} // verus!

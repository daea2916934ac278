//! The dialogues go through: nothing but a failure outside makes one end badly, and each comes
//! to its end after as many good outcomes as it has work to do.
use crate::chunk::{chunk, law_chunk_reads_back, read_chunk, ReadChunk, IDAT, IEND, IHDR};
use crate::closing::{
    begin_close, close_step, law_begin_close_keeps_order, wind_up, CloseStage, CloseStep, Closing,
};
use crate::driver::{error_after, Flush, Outcome, Request};
use crate::encoder::{
    law_opened_has_the_sizes, law_row_keeps_order, law_sizes, opened, Encoder, Phase, Settings,
};
use crate::filter_laws::{is_line, law_row_gets_its_type};
use crate::opening::{open_step, OpenJob, OpenStage, Opened};
use crate::options::ZlibOptions;
use crate::scanlines::{
    answers, ask, begin_lines, lemma_row_within, line_step, load, row_at, rows_in, LineStep, Lines,
    ScanlineStage,
};
use crate::session::{
    close_answered, law_close_run, law_lines_run, lines_answered, run_close, run_lines, BatchRun,
};
use crate::text::signed_decimal;
use vstd::prelude::*;
use vstd::string::*;

verus! {

/// Whether a step of the encoding of rows went well: the bytes were written, or the compressor
/// returned zero.
pub open spec fn is_good(outcome: Outcome) -> bool {
    match outcome {
        Outcome::Written => true,
        Outcome::Deflated { code, .. } => code == 0,
        _ => false,
    }
}

/// How many times the compressor has taken in the last of its input.
pub open spec fn rows_taken(outcomes: Seq<Outcome>) -> nat
    decreases outcomes.len(),
{
    if outcomes.len() == 0 {
        0
    } else {
        rows_taken(outcomes.drop_last()) + match outcomes.last() {
            Outcome::Deflated { avail_in, .. } => if avail_in == 0 {
                1nat
            } else {
                0
            },
            _ => 0,
        }
    }
}

/// Whether `bytes` is one chunk of that type and data, and nothing else.
pub open spec fn is_chunk(bytes: Seq<u8>, chunk_type: Seq<u8>, data: Seq<u8>) -> bool {
    read_chunk(bytes) == Some(ReadChunk { chunk_type, data, rest: Seq::empty() })
}

/// A chunk is one, whatever its type.
proof fn lemma_is_chunk(chunk_type: Seq<u8>, data: Seq<u8>)
    requires
        chunk_type.len() == 4,
        data.len() <= u32::MAX,
    ensures
        is_chunk(chunk(chunk_type, data), chunk_type, data),
{
    law_chunk_reads_back(chunk_type, data, Seq::empty());
    assert(chunk(chunk_type, data) + Seq::empty() =~= chunk(chunk_type, data));
}

/// An IDAT chunk reads as one.
proof fn lemma_is_idat(data: Seq<u8>)
    requires
        data.len() <= u32::MAX,
    ensures
        is_chunk(chunk(IDAT@, data), seq![73u8, 68u8, 65u8, 84u8], data),
{
    assert(IDAT@ =~= seq![73u8, 68u8, 65u8, 84u8]);
    lemma_is_chunk(IDAT@, data);
}

/// What is asked for while there is work to do: where there is room for output, to run the
/// compressor, and else to write the 2 MiB of output as an IDAT chunk.
pub open spec fn asks_on(request: Request, enc: Encoder, flush: Flush) -> bool {
    &&& enc.output.len() <= 2_097_152
    &&& enc.output.len() < 2_097_152 ==> request == Request::Deflate(flush)
    &&& enc.output.len() == 2_097_152 ==> {
        request matches Request::Write(bytes) && is_chunk(
            bytes,
            seq![73u8, 68u8, 65u8, 84u8],
            enc.output,
        )
    }
}

/// `n` rows of `width` bytes have been taken from the front of `data`, behind the rows of
/// `before`.
pub open spec fn rows_added(
    before: Seq<Seq<u8>>,
    after: Seq<Seq<u8>>,
    data: Seq<u8>,
    width: nat,
    n: nat,
) -> bool {
    &&& after.len() == before.len() + n
    &&& forall|i: int| 0 <= i < before.len() ==> after[i] == before[i]
    &&& forall|i: int|
        0 <= i < n ==> #[trigger] after[before.len() + i] == data.subrange(
            i * width,
            i * width + width,
        )
}

/// Loading a row of which something is handed over goes on with it.
proof fn lemma_load_asks(lines: Lines, enc: Encoder)
    requires
        enc.inv(Phase::Open),
        enc.width < 0xFFFF_FFFF,
        lines.row < lines.count,
        lines.count * enc.width <= lines.data.len(),
    ensures
        ({
            let next = enc.with_row(row_at(lines.data, enc.width, lines.row as int));
            &&& load(lines, enc) == ask(Lines { row: lines.row + 1, ..lines }, next)
            &&& next.inv(Phase::Open)
            &&& next.input.len() == enc.width + 1
            &&& is_line(
                enc.settings.filter_type,
                next.input,
                row_at(lines.data, enc.width, lines.row as int),
                enc.prev,
                enc.bpp,
            )
        }),
{
    law_sizes(enc, Phase::Open);
    lemma_row_within(lines.row, lines.count, enc.width, lines.data.len());
    let row = row_at(lines.data, enc.width, lines.row as int);
    law_row_keeps_order(enc, row);
    law_row_gets_its_type(enc.settings.filter_type, row, enc.prev, enc.bpp);
    let line = crate::unfilter::stream_row(enc.settings.filter_type, row, enc.prev, enc.bpp);
    assert(enc.with_row(row).input =~= line);
}

/// A row of any length is filtered as was set and becomes the row above the next one. Of what
/// it is filtered to, the compressor is handed as many bytes as the low 32 bits of the length
/// say, from the front.
pub proof fn law_rows_are_handed_over(enc: Encoder, row: Seq<u8>, line: Seq<u8>)
    requires
        enc.bpp >= 1,
        line == crate::unfilter::stream_row(
            enc.settings.filter_type,
            row,
            enc.prev,
            enc.bpp,
        ),
    ensures
        is_line(enc.settings.filter_type, line, row, enc.prev, enc.bpp),
        enc.with_row(row).input == line.subrange(0, (row.len() as int + 1) % 4_294_967_296),
        enc.with_row(row).prev == row,
        enc.with_row(row).output == enc.output,
        enc.with_row(row).settings == enc.settings,
        enc.with_row(row).width == enc.width,
        enc.with_row(row).bpp == enc.bpp,
{
    law_row_gets_its_type(enc.settings.filter_type, row, enc.prev, enc.bpp);
}

/// Asking on is running the compressor or writing a full chunk.
proof fn lemma_ask(lines: Lines, enc: Encoder)
    requires
        enc.inv(Phase::Open),
    ensures
        asks_on(ask(lines, enc).request, enc, Flush::No),
        ask(lines, enc).enc == enc,
        ask(lines, enc).error is None,
        ask(lines, enc).lines.row == lines.row,
        !(ask(lines, enc).lines.stage == ScanlineStage::Over),
{
    law_sizes(enc, Phase::Open);
    lemma_is_idat(enc.output);
}

/// The rows of a step are those of the batch up to its position.
proof fn lemma_rows_added(before: Seq<Seq<u8>>, data: Seq<u8>, width: nat, n: nat)
    ensures
        rows_added(before, before + rows_in(data, width, n), data, width, n),
{
    let after = before + rows_in(data, width, n);
    assert forall|i: int| 0 <= i < n implies #[trigger] after[before.len() + i] == data.subrange(
        i * width,
        i * width + width,
    ) by {
        assert((i + 1) * width == i * width + width) by (nonlinear_arith);
    }
}

/// Encoding begins: the first row is taken up and all of it is handed to the compressor.
pub proof fn law_encoding_begins(enc: Encoder, data: Seq<u8>, count: nat)
    requires
        enc.inv(Phase::Open),
        0 < count <= u32::MAX,
        count * enc.width <= data.len(),
        enc.width < 0xFFFF_FFFF,
    ensures
        ({
            let step = begin_lines(enc, data, count);
            &&& asks_on(step.request, step.enc, Flush::No)
            &&& step.error is None
            &&& step.enc.input.len() == enc.width + 1
            &&& is_line(
                enc.settings.filter_type,
                step.enc.input,
                data.subrange(0, enc.width as int),
                enc.prev,
                enc.bpp,
            )
            &&& step.enc.output == enc.output
            &&& step.enc.prev == data.subrange(0, enc.width as int)
            &&& rows_added(enc.history.rows, step.enc.history.rows, data, enc.width, 1)
        }),
{
    let lines = Lines {
        data,
        count,
        row: 0,
        stage: ScanlineStage::Over,
        earlier: enc.history.rows,
        clean: enc.history.faultless && enc.input.len() == 0,
    };
    lemma_load_asks(lines, enc);
    let row = row_at(data, enc.width, 0);
    assert(0 * enc.width == 0 && 1 * enc.width == enc.width) by (nonlinear_arith);
    assert(row =~= data.subrange(0, enc.width as int));
    lemma_ask(Lines { row: 1, ..lines }, enc.with_row(row));
    assert(enc.history.rows.push(row) =~= enc.history.rows + rows_in(data, enc.width, 1));
    lemma_rows_added(enc.history.rows, data, enc.width, 1);
}

/// Where the encoding of rows stands after good outcomes.
spec fn stands(step: LineStep, taken: nat) -> bool {
    let count = step.lines.count;
    &&& taken <= count
    &&& step.error is None
    &&& taken == count ==> step.request == Request::Finished(true) && step.lines.row == count
        && step.lines.stage == ScanlineStage::Over && step.enc.input.len() == 0
    &&& taken < count ==> asks_on(step.request, step.enc, Flush::No) && step.lines.row == taken + 1
        && !(step.lines.stage == ScanlineStage::Over) && step.enc.input.len() > 0
}

/// Where a run of good outcomes stands.
proof fn lemma_run_stands(enc: Encoder, batch: BatchRun)
    requires
        enc.inv(Phase::Open),
        0 < batch.count <= u32::MAX,
        batch.count * enc.width <= batch.data.len(),
        enc.width < 0xFFFF_FFFF,
        lines_answered(batch.first(enc), batch.outcomes),
        forall|i: int| 0 <= i < batch.outcomes.len() ==> is_good(#[trigger] batch.outcomes[i]),
    ensures
        ({
            let step = run_lines(batch.first(enc), batch.outcomes);
            &&& stands(step, rows_taken(batch.outcomes))
            &&& step.lines.count == batch.count
            &&& step.lines.data == batch.data
            &&& step.lines.earlier == enc.history.rows
        }),
    decreases batch.outcomes.len(),
{
    let first = batch.first(enc);
    if batch.outcomes.len() == 0 {
        let lines = Lines {
            data: batch.data,
            count: batch.count,
            row: 0,
            stage: ScanlineStage::Over,
            earlier: enc.history.rows,
            clean: enc.history.faultless && enc.input.len() == 0,
        };
        lemma_load_asks(lines, enc);
        lemma_ask(
            Lines { row: 1, ..lines },
            enc.with_row(row_at(batch.data, enc.width, 0)),
        );
    } else {
        let shorter = BatchRun { outcomes: batch.outcomes.drop_last(), ..batch };
        assert forall|i: int| 0 <= i < shorter.outcomes.len() implies is_good(
            #[trigger] shorter.outcomes[i],
        ) by {
            assert(shorter.outcomes[i] == batch.outcomes[i]);
        }
        lemma_run_stands(enc, shorter);
        law_lines_run(enc, shorter);
        let before = run_lines(first, shorter.outcomes);
        let outcome = batch.outcomes.last();
        assert(is_good(batch.outcomes[batch.outcomes.len() - 1]));
        lemma_step_stands(before, outcome, rows_taken(shorter.outcomes));
    }
}

/// What a good outcome adds.
proof fn lemma_step_stands(before: LineStep, outcome: Outcome, taken: nat)
    requires
        before.enc.inv(Phase::Open),
        before.enc.width < 0xFFFF_FFFF,
        before.lines.inv(before.enc),
        stands(before, taken),
        answers(before.lines, before.enc, outcome),
        is_good(outcome),
    ensures
        ({
            let step = line_step(before.lines, before.enc, outcome);
            let more = match outcome {
                Outcome::Deflated { avail_in, .. } => if avail_in == 0 {
                    1nat
                } else {
                    0
                },
                _ => 0,
            };
            &&& stands(step, taken + more)
            &&& step.lines.count == before.lines.count
            &&& step.lines.data == before.lines.data
            &&& step.lines.earlier == before.lines.earlier
        }),
{
    match outcome {
        Outcome::Deflated { avail_in, produced, .. } => {
            let after = before.enc.with_deflated(avail_in, produced);
            crate::encoder::law_deflate_keeps_order(before.enc, avail_in, produced);
            if avail_in > 0 {
                lemma_ask(before.lines, after);
            } else if before.lines.row < before.lines.count {
                lemma_load_asks(before.lines, after);
                lemma_ask(
                    Lines { row: before.lines.row + 1, ..before.lines },
                    after.with_row(row_at(before.lines.data, after.width, before.lines.row as int)),
                );
            }
        },
        _ => {
            crate::encoder::law_idat_keeps_order(before.enc);
            lemma_ask(before.lines, before.enc.with_idat());
        },
    }
}

/// Encoding goes through. As long as every write succeeds and the compressor returns zero, it
/// never ends badly; it goes on with the compressor, or with a full IDAT chunk, until the
/// compressor has taken in as many rows as there are, and then it ends well. By then all rows
/// have been taken up in their order.
pub proof fn law_encoding_goes_through(enc: Encoder, batch: BatchRun)
    requires
        enc.inv(Phase::Open),
        0 < batch.count <= u32::MAX,
        batch.count * enc.width <= batch.data.len(),
        enc.width < 0xFFFF_FFFF,
        lines_answered(batch.first(enc), batch.outcomes),
        forall|i: int| 0 <= i < batch.outcomes.len() ==> is_good(#[trigger] batch.outcomes[i]),
    ensures
        ({
            let step = run_lines(batch.first(enc), batch.outcomes);
            let taken = rows_taken(batch.outcomes);
            let (before, after) = (enc.history.rows, step.enc.history.rows);
            &&& taken <= batch.count
            &&& step.error is None
            &&& step.request == Request::Finished(true) <==> taken == batch.count
            &&& taken == batch.count ==> {
                &&& step.enc.input.len() == 0
                &&& rows_added(before, after, batch.data, enc.width, batch.count)
            }
            &&& taken < batch.count ==> {
                &&& asks_on(step.request, step.enc, Flush::No)
                &&& step.enc.input.len() > 0
                &&& rows_added(before, after, batch.data, enc.width, taken + 1)
            }
        }),
{
    lemma_run_stands(enc, batch);
    law_lines_run(enc, batch);
    let step = run_lines(batch.first(enc), batch.outcomes);
    lemma_rows_added(enc.history.rows, batch.data, enc.width, step.lines.row);
}

/// Where the compressor has taken in a row, the next one is filtered as was set, against the
/// row before it, and all of it is handed over; without a next one encoding ends well.
pub proof fn law_next_row_follows(lines: Lines, enc: Encoder, produced: Seq<u8>)
    requires
        enc.inv(Phase::Open),
        lines.inv(enc),
        enc.width < 0xFFFF_FFFF,
        answers(lines, enc, Outcome::Deflated { code: 0, avail_in: 0, produced }),
    ensures
        ({
            let step = line_step(lines, enc, Outcome::Deflated { code: 0, avail_in: 0, produced });
            let row = lines.data.subrange(
                (lines.row * enc.width) as int,
                (lines.row * enc.width + enc.width) as int,
            );
            &&& lines.row == lines.count ==> {
                &&& step.request == Request::Finished(true)
                &&& step.enc.input.len() == 0
                &&& step.enc.prev == enc.prev
            }
            &&& lines.row < lines.count ==> {
                &&& asks_on(step.request, step.enc, Flush::No)
                &&& step.enc.prev == row
                &&& is_line(
                    enc.settings.filter_type,
                    step.enc.input,
                    row,
                    enc.prev,
                    enc.bpp,
                )
            }
            &&& step.enc.settings == enc.settings
            &&& step.enc.width == enc.width
            &&& step.enc.bpp == enc.bpp
        }),
{
    let after = enc.with_deflated(0, produced);
    crate::encoder::law_deflate_keeps_order(enc, 0, produced);
    let (i, w) = (lines.row, enc.width);
    assert((i + 1) * w == i * w + w) by (nonlinear_arith);
    if lines.row < lines.count {
        lemma_load_asks(lines, after);
        lemma_ask(
            Lines { row: lines.row + 1, ..lines },
            after.with_row(row_at(lines.data, w, i as int)),
        );
    }
}

/// Encoding gives up after a failure, and says which: a write that failed, or the number that
/// the compressor returned. It does so after nothing else.
pub proof fn law_encoding_gives_up(lines: Lines, enc: Encoder, outcome: Outcome)
    requires
        enc.inv(Phase::Open),
        lines.inv(enc),
        enc.width < 0xFFFF_FFFF,
        answers(lines, enc, outcome),
    ensures
        ({
            let step = line_step(lines, enc, outcome);
            &&& step.request == Request::Finished(false) <==> !is_good(outcome)
            &&& step.error is Some <==> !is_good(outcome)
            &&& outcome matches Outcome::Deflated { code, .. } ==> code != 0 ==> step.error == Some(
                "ZLIB deflate error code: "@ + signed_decimal(code as int),
            )
            &&& outcome is Failed ==> step.error == Some(
                "IO Write Error during IDAT flush: Failed to write IDAT chunk"@,
            )
            &&& !is_good(outcome) ==> {
                &&& step.enc.history.rows == enc.history.rows
                &&& step.enc.prev == enc.prev
                &&& outcome is Failed ==> step.enc.output == enc.output && step.enc.input
                    == enc.input
            }
        }),
{
    match outcome {
        Outcome::Deflated { avail_in, produced, .. } => {
            let after = enc.with_deflated(avail_in, produced);
            crate::encoder::law_deflate_keeps_order(enc, avail_in, produced);
            if lines.row < lines.count {
                lemma_load_asks(lines, after);
            }
        },
        _ => {},
    }
}

/// What is waited for is what was asked for.
spec fn lines_wait_for(step: LineStep) -> bool {
    match step.lines.stage {
        ScanlineStage::Deflate => step.request == Request::Deflate(Flush::No),
        ScanlineStage::Write => step.request is Write,
        ScanlineStage::Over => step.request is Finished,
    }
}

/// What is waited for is what was asked for, when rows are loaded.
proof fn lemma_load_waits_for(lines: Lines, enc: Encoder)
    ensures
        lines_wait_for(load(lines, enc)),
    decreases lines.count - lines.row,
{
    if lines.row < lines.count {
        let next = enc.with_row(row_at(lines.data, enc.width, lines.row as int));
        if next.input.len() == 0 {
            lemma_load_waits_for(Lines { row: lines.row + 1, ..lines }, next);
        }
    }
}

/// What is waited for is what was asked for, at every step.
proof fn lemma_run_waits_for(enc: Encoder, batch: BatchRun)
    ensures
        lines_wait_for(run_lines(batch.first(enc), batch.outcomes)),
{
    if batch.outcomes.len() == 0 {
        let lines = Lines {
            data: batch.data,
            count: batch.count,
            row: 0,
            stage: ScanlineStage::Over,
            earlier: enc.history.rows,
            clean: enc.history.faultless && enc.input.len() == 0,
        };
        lemma_load_waits_for(lines, enc);
    } else {
        let before = run_lines(batch.first(enc), batch.outcomes.drop_last());
        if let Outcome::Deflated { avail_in, produced, .. } = batch.outcomes.last() {
            lemma_load_waits_for(before.lines, before.enc.with_deflated(avail_in, produced));
        }
    }
}

/// Encoding goes on whatever comes of an action: a write that succeeds or fails, and a step of
/// the compressor with any number that takes in any part of its input and produces anything
/// that there is room for.
pub proof fn law_encoding_takes_any_outcome(
    enc: Encoder,
    batch: BatchRun,
    code: i32,
    avail_in: nat,
    produced: Seq<u8>,
    message: Seq<char>,
)
    requires
        lines_answered(batch.first(enc), batch.outcomes),
    ensures
        ({
            let first = batch.first(enc);
            let step = run_lines(first, batch.outcomes);
            let deflated = Outcome::Deflated { code, avail_in, produced };
            &&& step.request is Deflate && avail_in <= step.enc.input.len()
                && step.enc.output.len() + produced.len() <= 2_097_152 ==> lines_answered(
                first,
                batch.outcomes.push(deflated),
            )
            &&& step.request is Write ==> lines_answered(
                first,
                batch.outcomes.push(Outcome::Written),
            )
            &&& step.request is Write ==> lines_answered(
                first,
                batch.outcomes.push(Outcome::Failed { message }),
            )
        }),
{
    lemma_run_waits_for(enc, batch);
    let deflated = Outcome::Deflated { code, avail_in, produced };
    assert(batch.outcomes.push(deflated).drop_last() =~= batch.outcomes);
    assert(batch.outcomes.push(Outcome::Written).drop_last() =~= batch.outcomes);
    assert(batch.outcomes.push(Outcome::Failed { message }).drop_last() =~= batch.outcomes);
}

/// Closing goes on whatever comes of an action.
pub proof fn law_closing_takes_any_outcome(
    enc: Encoder,
    outcomes: Seq<Outcome>,
    code: i32,
    produced: Seq<u8>,
    message: Seq<char>,
)
    requires
        enc.inv(Phase::Open),
        close_answered(begin_close(enc), outcomes),
    ensures
        ({
            let first = begin_close(enc);
            let step = run_close(first, outcomes);
            let deflated = Outcome::Deflated { code, avail_in: 0, produced };
            let failed = Outcome::Failed { message };
            &&& step.request is Deflate && step.closing.enc.output.len() + produced.len()
                <= 2_097_152 ==> close_answered(first, outcomes.push(deflated))
            &&& step.request is Write ==> close_answered(first, outcomes.push(Outcome::Written))
            &&& step.request is Write ==> close_answered(first, outcomes.push(failed))
            &&& step.request is FlushWriter ==> close_answered(
                first,
                outcomes.push(Outcome::Flushed),
            )
            &&& step.request is FlushWriter ==> close_answered(first, outcomes.push(failed))
            &&& step.request is EndDeflate ==> close_answered(first, outcomes.push(Outcome::Ended))
        }),
{
    lemma_waits_for(enc, outcomes);
    let deflated = Outcome::Deflated { code, avail_in: 0, produced };
    assert(outcomes.push(deflated).drop_last() =~= outcomes);
    assert(outcomes.push(Outcome::Written).drop_last() =~= outcomes);
    assert(outcomes.push(Outcome::Failed { message }).drop_last() =~= outcomes);
    assert(outcomes.push(Outcome::Flushed).drop_last() =~= outcomes);
    assert(outcomes.push(Outcome::Ended).drop_last() =~= outcomes);
}

/// Opening goes on whatever comes of an action.
pub proof fn law_opening_takes_any_outcome(
    job: OpenJob,
    outcome: Outcome,
    code: i32,
    message: Seq<char>,
)
    requires
        job.answered_by(outcome),
    ensures
        ({
            let step = open_step(job, outcome);
            let failed = Outcome::Failed { message };
            &&& step.reply matches Opened::Do(request) ==> {
                &&& request is Write ==> step.job.answered_by(Outcome::Written)
                    && step.job.answered_by(failed)
                &&& request is InitDeflate ==> step.job.answered_by(Outcome::Initialized { code })
                &&& request is Write || request is InitDeflate
            }
            &&& job.inv() ==> step.job.inv()
            &&& (OpenJob { stage: OpenStage::Create, ..job }).answered_by(Outcome::Created)
            &&& (OpenJob { stage: OpenStage::Create, ..job }).answered_by(failed)
            &&& (OpenJob { stage: OpenStage::Magic, ..job }).answered_by(Outcome::Written)
            &&& (OpenJob { stage: OpenStage::Magic, ..job }).answered_by(failed)
        }),
{
}

/// A call for no rows is refused with a message and changes nothing.
pub proof fn law_no_rows_are_refused(enc: Encoder, data: Seq<u8>)
    ensures
        ({
            let step = begin_lines(enc, data, 0);
            &&& step.request == Request::Finished(false)
            &&& step.error == Some(
                "Invalid encoder handle, null data buffer, or 0 scanlines specified"@,
            )
            &&& step.enc == enc
        }),
{
}

/// A step of the compressor leaves the end of its input and adds to its output; a written chunk
/// empties the output.
pub proof fn law_steps_move_the_bytes(lines: Lines, enc: Encoder, outcome: Outcome)
    requires
        enc.inv(Phase::Open),
        lines.inv(enc),
        enc.width < 0xFFFF_FFFF,
        answers(lines, enc, outcome),
    ensures
        ({
            let after = line_step(lines, enc, outcome).enc;
            &&& outcome matches Outcome::Deflated { code, avail_in, produced } ==> {
                &&& after.output == enc.output + produced
                &&& avail_in > 0 || code != 0 ==> after.input == enc.input.subrange(
                    enc.input.len() - avail_in,
                    enc.input.len() as int,
                )
                &&& avail_in > 0 || code != 0 ==> after.prev == enc.prev
            }
            &&& outcome is Written ==> after.output.len() == 0 && after.input == enc.input
                && after.prev == enc.prev
        }),
{
    match outcome {
        Outcome::Deflated { code, avail_in, produced } => {
            let after = enc.with_deflated(avail_in, produced);
            crate::encoder::law_deflate_keeps_order(enc, avail_in, produced);
            assert(enc.input.skip(enc.input.len() - avail_in) =~= enc.input.subrange(
                enc.input.len() - avail_in,
                enc.input.len() as int,
            ));
            if avail_in == 0 && lines.row < lines.count {
                lemma_load_asks(lines, after);
            }
        },
        _ => {},
    }
}

/// Whether a step of the closing went well. The compressor may say that it has come to the end
/// of its stream (1), that it goes on (0), or that it needs more room (-5).
pub open spec fn is_good_for_closing(outcome: Outcome) -> bool {
    match outcome {
        Outcome::Written => true,
        Outcome::Flushed => true,
        Outcome::Ended => true,
        Outcome::Deflated { code, .. } => code == 0 || code == 1 || code == -5,
        _ => false,
    }
}

/// Closing begins with the compressor, or with a full IDAT chunk, and drops what the compressor
/// has not taken in.
pub proof fn law_closing_begins(enc: Encoder)
    requires
        enc.inv(Phase::Open),
    ensures
        ({
            let step = begin_close(enc);
            &&& asks_on(step.request, step.closing.enc, Flush::Finish)
            &&& step.error is None
            &&& step.closing.enc.input.len() == 0
            &&& step.closing.enc.output == enc.output
        }),
{
    law_sizes(enc, Phase::Open);
    lemma_is_idat(enc.output);
}

/// Closing ends badly only after a failure, and says which.
pub proof fn law_closing_gives_up(enc: Encoder, outcomes: Seq<Outcome>)
    requires
        enc.inv(Phase::Open),
        outcomes.len() > 0,
        close_answered(begin_close(enc), outcomes),
    ensures
        ({
            let before = run_close(begin_close(enc), outcomes.drop_last()).request;
            let step = run_close(begin_close(enc), outcomes);
            let outcome = outcomes.last();
            &&& step.request == Request::Finished(false) <==> !is_good_for_closing(outcome)
            &&& step.error is Some <==> !is_good_for_closing(outcome)
            &&& outcome matches Outcome::Deflated { code, .. } ==> code != 0 && code != 1 && code
                != -5 ==> step.error == Some(
                "ZLIB deflate finish error code: "@ + signed_decimal(code as int),
            )
            &&& outcome matches Outcome::Failed { message } ==> before is FlushWriter ==> step.error
                == Some("IO Flush Error: "@ + message)
        }),
{
    law_close_run(enc, outcomes.drop_last());
    let before = run_close(begin_close(enc), outcomes.drop_last());
    lemma_waits_for(enc, outcomes.drop_last());
}

/// What is waited for is what was asked for.
spec fn waits_for(step: CloseStep) -> bool {
    let enc = step.closing.enc;
    match step.closing.stage {
        CloseStage::Deflate => step.request == Request::Deflate(Flush::Finish),
        CloseStage::Write => step.request == Request::Write(chunk(IDAT@, enc.output)),
        CloseStage::WriteRest => step.request == Request::Write(chunk(IDAT@, enc.output)),
        CloseStage::WriteEnd => step.request == Request::Write(chunk(IEND@, Seq::empty())),
        CloseStage::Flush => step.request == Request::FlushWriter,
        CloseStage::End => step.request == Request::EndDeflate,
        CloseStage::Over => step.request is Finished,
    }
}

/// What is waited for is what was asked for, at every step.
proof fn lemma_waits_for(enc: Encoder, outcomes: Seq<Outcome>)
    requires
        enc.inv(Phase::Open),
        close_answered(begin_close(enc), outcomes),
    ensures
        waits_for(run_close(begin_close(enc), outcomes)),
{
    if outcomes.len() == 0 {
        law_begin_close_keeps_order(enc);
    } else {
        law_close_run(enc, outcomes.drop_last());
    }
}

/// The messages for writes that fail in closing: that of a full chunk, of what is left behind
/// the stream's end, and of the end chunk, with the writer's own reason.
pub proof fn law_closing_names_the_write(enc: Encoder, outcomes: Seq<Outcome>, message: Seq<char>)
    requires
        enc.inv(Phase::Open),
        close_answered(begin_close(enc), outcomes),
    ensures
        ({
            let step = run_close(begin_close(enc), outcomes);
            let failed = close_step(step.closing, Outcome::Failed { message });
            let data = step.closing.enc.output;
            &&& step.closing.stage == CloseStage::Write ==> {
                &&& data.len() == 2_097_152
                &&& step.request matches Request::Write(bytes) && is_chunk(
                    bytes,
                    seq![73u8, 68u8, 65u8, 84u8],
                    data,
                )
                &&& failed.error == Some(
                    "IO Write Error during final stream flush: Failed to write IDAT chunk"@,
                )
            }
            &&& step.closing.stage == CloseStage::WriteRest ==> {
                &&& 1 <= data.len() <= 2_097_152
                &&& step.request matches Request::Write(bytes) && is_chunk(
                    bytes,
                    seq![73u8, 68u8, 65u8, 84u8],
                    data,
                )
                &&& failed.error == Some(
                    "IO Write Error writing remaining IDAT data: Failed to write IDAT chunk"@,
                )
            }
            &&& step.closing.stage == CloseStage::WriteEnd ==> {
                &&& data.len() == 0
                &&& step.request matches Request::Write(bytes) && is_chunk(
                    bytes,
                    seq![73u8, 69u8, 78u8, 68u8],
                    Seq::empty(),
                )
                &&& failed.error == Some("IO Write Error writing IEND chunk: "@ + message)
            }
        }),
{
    lemma_waits_for(enc, outcomes);
    law_close_run(enc, outcomes);
    let step = run_close(begin_close(enc), outcomes);
    let data = step.closing.enc.output;
    if step.closing.stage == CloseStage::WriteRest {
        law_sizes(step.closing.enc, Phase::Drained);
    }
    if step.closing.stage == CloseStage::Write || step.closing.stage == CloseStage::WriteRest {
        lemma_is_idat(data);
    }
    assert(IEND@ =~= seq![73u8, 69u8, 78u8, 68u8]);
    lemma_is_chunk(IEND@, Seq::empty());
}

/// Before the end of the compressed stream closing goes on with the compressor and full IDAT
/// chunks.
pub proof fn law_closing_drains(enc: Encoder, outcomes: Seq<Outcome>, outcome: Outcome)
    requires
        enc.inv(Phase::Open),
        close_answered(begin_close(enc), outcomes.push(outcome)),
        ({
            let before = run_close(begin_close(enc), outcomes);
            let deflated = before.request == Request::Deflate(Flush::Finish) && (
            outcome matches Outcome::Deflated { code, .. } && (code == 0 || code == -5));
            let written = before.closing.stage == CloseStage::Write && outcome is Written;
            deflated || written
        }),
    ensures
        ({
            let before = run_close(begin_close(enc), outcomes);
            let step = run_close(begin_close(enc), outcomes.push(outcome));
            &&& asks_on(step.request, step.closing.enc, Flush::Finish)
            &&& step.error is None
            &&& outcome matches Outcome::Deflated { produced, .. } ==> step.closing.enc.output
                == before.closing.enc.output + produced
            &&& outcome is Written ==> step.closing.enc.output.len() == 0
        }),
{
    assert(outcomes.push(outcome).drop_last() =~= outcomes);
    assert(outcomes.push(outcome).last() == outcome);
    lemma_waits_for(enc, outcomes);
    law_close_run(enc, outcomes);
    law_close_run(enc, outcomes.push(outcome));
    let step = run_close(begin_close(enc), outcomes.push(outcome));
    law_sizes(step.closing.enc, Phase::Open);
    lemma_is_idat(step.closing.enc.output);
}

/// Closing goes through behind the end of the compressed stream: what is left of the stream is
/// written as one IDAT chunk, if anything is, then the end chunk; the writer is flushed, the
/// compressor released, and closing ends well.
pub proof fn law_closing_ends(step: CloseStep, produced: Seq<u8>)
    requires
        step.closing.stage == CloseStage::Deflate,
        step.closing.in_order(),
        step.closing.enc.output.len() + produced.len() <= 2_097_152,
    ensures
        ({
            let left = step.closing.enc.output + produced;
            let end = close_step(
                step.closing,
                Outcome::Deflated { code: 1, avail_in: 0, produced },
            );
            let last = if left.len() > 0 {
                close_step(end.closing, Outcome::Written)
            } else {
                end
            };
            let flush = close_step(last.closing, Outcome::Written);
            let release = close_step(flush.closing, Outcome::Flushed);
            let done = close_step(release.closing, Outcome::Ended);
            &&& left.len() > 0 ==> {
                end.request matches Request::Write(bytes) && is_chunk(
                    bytes,
                    seq![73u8, 68u8, 65u8, 84u8],
                    left,
                )
            }
            &&& last.request matches Request::Write(bytes) && is_chunk(
                bytes,
                seq![73u8, 69u8, 78u8, 68u8],
                Seq::empty(),
            )
            &&& flush.request == Request::FlushWriter
            &&& release.request == Request::EndDeflate
            &&& done.request == Request::Finished(true)
            &&& end.error is None && last.error is None && flush.error is None
                && release.error is None && done.error is None
        }),
{
    let left = step.closing.enc.output + produced;
    let after = step.closing.enc.with_deflated(0, produced);
    let end = close_step(step.closing, Outcome::Deflated { code: 1, avail_in: 0, produced });
    lemma_is_idat(left);
    assert(end == wind_up(after));
    if left.len() > 0 {
        assert(end.closing == (Closing { enc: after, stage: CloseStage::WriteRest }));
        assert(close_step(end.closing, Outcome::Written) == wind_up(after.with_idat()));
        lemma_last_steps(after.with_idat());
    } else {
        lemma_last_steps(after);
    }
}

/// The last steps of the closing, from the end chunk on.
proof fn lemma_last_steps(enc: Encoder)
    requires
        enc.output.len() == 0,
    ensures
        ({
            let last = wind_up(enc);
            let flush = close_step(last.closing, Outcome::Written);
            let release = close_step(flush.closing, Outcome::Flushed);
            let done = close_step(release.closing, Outcome::Ended);
            &&& last.request matches Request::Write(bytes) && is_chunk(
                bytes,
                seq![73u8, 69u8, 78u8, 68u8],
                Seq::empty(),
            )
            &&& flush.request == Request::FlushWriter
            &&& release.request == Request::EndDeflate
            &&& done.request == Request::Finished(true)
            &&& last.error is None && flush.error is None && release.error is None
                && done.error is None
        }),
{
    assert(IEND@ =~= seq![73u8, 69u8, 78u8, 68u8]);
    lemma_is_chunk(IEND@, Seq::empty());
}

/// Opening goes through. With a color type of PNG, and where every action succeeds, a file is
/// created, the signature and the header chunk with the settings are written, the compressor is
/// set up with the options given, and the encoder is there.
pub proof fn law_opening_goes_through(settings: Settings, options: ZlibOptions)
    requires
        settings.color_type == 0 || settings.color_type == 2 || settings.color_type == 3
            || settings.color_type == 4 || settings.color_type == 6,
    ensures
        ({
            let create = OpenJob { settings, options, stage: OpenStage::Create };
            let stream = OpenJob { settings, options, stage: OpenStage::Magic };
            let magic = open_step(create, Outcome::Created);
            let header = open_step(stream, Outcome::Written);
            let init = open_step(header.job, Outcome::Written);
            let ready = open_step(init.job, Outcome::Initialized { code: 0 });
            &&& magic.job == stream
            &&& magic.reply == Opened::Do(
                Request::Write(seq![137u8, 80u8, 78u8, 71u8, 13u8, 10u8, 26u8, 10u8]),
            )
            &&& header.reply matches Opened::Do(Request::Write(bytes)) && {
                let data = bytes.subrange(8, 21);
                &&& bytes.len() == 25
                &&& is_chunk(bytes, seq![73u8, 72u8, 68u8, 82u8], data)
                &&& 0x100_0000 * data[0] + 0x1_0000 * data[1] + 0x100 * data[2] + data[3]
                    == settings.width
                &&& 0x100_0000 * data[4] + 0x1_0000 * data[5] + 0x100 * data[6] + data[7]
                    == settings.height
                &&& data[8] == settings.bit_depth
                &&& data[9] == settings.color_type
                &&& data[10] == 0 && data[11] == 0 && data[12] == 0
            }
            &&& init.reply == Opened::Do(Request::InitDeflate(options))
            &&& ready.reply == Opened::Ready(opened(settings))
            &&& magic.error is None && header.error is None && init.error is None
                && ready.error is None
        }),
{
    let s = settings;
    law_opened_has_the_sizes(s);
    let data = crate::png_file::ihdr_data(s.width, s.height, s.bit_depth, s.color_type);
    let bytes = chunk(IHDR@, data);
    assert(crate::chunk::PNG_MAGIC@ =~= seq![137u8, 80u8, 78u8, 71u8, 13u8, 10u8, 26u8, 10u8]);
    assert(IHDR@ =~= seq![73u8, 72u8, 68u8, 82u8]);
    assert(data.len() == 13);
    lemma_is_chunk(IHDR@, data);
    assert(bytes.subrange(8, 21) =~= data);
    crate::chunk::law_be_bytes_read_back(s.width);
    crate::chunk::law_be_bytes_read_back(s.height);
    let (w, h) = (crate::chunk::be_bytes(s.width), crate::chunk::be_bytes(s.height));
    assert(data[0] == w[0] && data[1] == w[1] && data[2] == w[2] && data[3] == w[3]);
    assert(data[4] == h[0] && data[5] == h[1] && data[6] == h[2] && data[7] == h[3]);
}

/// Opening fails only where something outside failed or the color type is none of PNG's, and
/// says which.
pub proof fn law_opening_gives_up(job: OpenJob, outcome: Outcome)
    requires
        job.answered_by(outcome),
    ensures
        ({
            let s = job.settings;
            let step = open_step(job, outcome);
            let known = s.color_type == 0 || s.color_type == 2 || s.color_type == 3 || s.color_type
                == 4 || s.color_type == 6;
            &&& step.reply is Failed <==> step.error is Some
            &&& step.reply is Failed <==> {
                ||| outcome is Failed
                ||| job.stage == OpenStage::Header && !known
                ||| outcome matches Outcome::Initialized { code } && code != 0
            }
            &&& outcome is Failed && job.stage == OpenStage::Create ==> step.error == Some(
                "Could not create output file"@,
            )
            &&& outcome is Failed && job.stage == OpenStage::Magic ==> step.error == Some(
                "Failed to write PNG magic"@,
            )
            &&& outcome is Failed && job.stage == OpenStage::Header ==> step.error == Some(
                "Failed to write IHDR"@,
            )
            &&& outcome is Written && job.stage == OpenStage::Header && !known ==> step.error
                == Some("Unsupported color type"@)
            &&& outcome matches Outcome::Initialized { code } ==> code != 0 ==> step.error == Some(
                "ZLIB Init failed with code: "@ + signed_decimal(code as int),
            )
            &&& step.job.settings == job.settings && step.job.options == job.options
        }),
{
}

/// The last error is that of the last step that had one.
pub proof fn law_errors_are_kept(before: Seq<char>, error: Option<Seq<char>>)
    ensures
        error matches Some(message) ==> error_after(before, error) == message,
        error is None ==> error_after(before, error) == before,
{
}

} // verus!

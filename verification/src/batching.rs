//! How an image is cut into batches of rows makes no difference to its encoding.
use crate::driver::{Outcome, Request};
use crate::encoder::Encoder;
use crate::scanlines::{
    begin_lines, lemma_row_within, lemma_stage_is_free, line_step, load, row_at,
    same_image, same_rows, LineStep, Lines, ScanlineStage,
};
use crate::session::{bytes_out, lemma_three, lines_answered, lines_out, run_lines};
use vstd::prelude::*;

verus! {

/// Loading rows keeps to the same rows of the same image. It comes to a good end only where
/// no row is left.
proof fn lemma_load_frame(lines: Lines, enc: Encoder)
    requires
        lines.row <= lines.count,
    ensures
        ({
            let step = load(lines, enc);
            &&& same_rows(step.lines, lines)
            &&& same_image(step.enc, enc)
            &&& step.lines.row <= step.lines.count
            &&& step.request == Request::Finished(true) ==> step.lines.row == step.lines.count
                && step.lines.stage == ScanlineStage::Over
        }),
    decreases lines.count - lines.row,
{
    if lines.row < lines.count {
        let next = enc.with_row(row_at(lines.data, enc.width, lines.row as int));
        let rest = Lines { row: lines.row + 1, ..lines };
        if next.input.len() == 0 {
            lemma_load_frame(rest, next);
        }
    }
}

/// The beginning of the encoding of rows works on these rows of the same image.
proof fn lemma_begin_lines_frame(enc: Encoder, data: Seq<u8>, count: nat)
    ensures
        ({
            let step = begin_lines(enc, data, count);
            &&& step.lines.data == data
            &&& step.lines.count == count
            &&& same_image(step.enc, enc)
            &&& step.lines.row <= count
            &&& step.request == Request::Finished(true) ==> step.lines.row == count
                && step.lines.stage == ScanlineStage::Over
        }),
{
    let lines = Lines {
        data,
        count,
        row: 0,
        stage: ScanlineStage::Over,
        earlier: enc.history.rows,
        clean: enc.history.faultless && enc.input.len() == 0,
    };
    lemma_load_frame(lines, enc);
}

/// A step of the encoding of rows keeps to the same rows of the same image.
proof fn lemma_line_step_frame(lines: Lines, enc: Encoder, outcome: Outcome)
    requires
        lines.row <= lines.count,
    ensures
        ({
            let step = line_step(lines, enc, outcome);
            &&& same_rows(step.lines, lines)
            &&& same_image(step.enc, enc)
            &&& step.lines.row <= step.lines.count
            &&& step.request == Request::Finished(true) ==> step.lines.row == step.lines.count
                && step.lines.stage == ScanlineStage::Over
        }),
{
    if let Outcome::Deflated { avail_in, produced, .. } = outcome {
        lemma_load_frame(lines, enc.with_deflated(avail_in, produced));
    }
}

/// A step of the encoding of a batch, seen as a step of the encoding of `count` rows in `data`
/// of which the batch is the front. Where the batch is done, the rows behind it follow.
pub open spec fn carried_on(step: LineStep, data: Seq<u8>, count: nat) -> LineStep {
    let lines = Lines { data, count, ..step.lines };
    if step.request == Request::Finished(true) {
        load(lines, step.enc)
    } else {
        LineStep { lines, ..step }
    }
}

/// Loading rows of a longer batch is loading those of its front, and carrying on.
proof fn lemma_load_carries_on(lines: Lines, enc: Encoder, more: Seq<u8>, m: nat)
    requires
        lines.row <= lines.count,
        lines.data.len() == lines.count * enc.width,
    ensures
        load(Lines { data: lines.data + more, count: lines.count + m, ..lines }, enc)
            == carried_on(load(lines, enc), lines.data + more, lines.count + m),
    decreases lines.count - lines.row,
{
    let whole = Lines { data: lines.data + more, count: lines.count + m, ..lines };
    if lines.row < lines.count {
        let row = row_at(lines.data, enc.width, lines.row as int);
        lemma_row_within(lines.row, lines.count, enc.width, lines.data.len());
        assert(row_at(whole.data, enc.width, lines.row as int) =~= row);
        let next = enc.with_row(row);
        if next.input.len() == 0 {
            lemma_load_carries_on(Lines { row: lines.row + 1, ..lines }, next, more, m);
        }
    } else {
        lemma_stage_is_free(whole, enc);
    }
}

/// The beginning of a longer batch is that of its front, and carrying on.
proof fn lemma_begin_carries_on(
    enc: Encoder,
    data: Seq<u8>,
    n: nat,
    more: Seq<u8>,
    m: nat,
)
    requires
        n > 0,
        data.len() == n * enc.width,
    ensures
        begin_lines(enc, data + more, n + m) == carried_on(
            begin_lines(enc, data, n),
            data + more,
            n + m,
        ),
{
    let lines = Lines {
        data,
        count: n,
        row: 0,
        stage: ScanlineStage::Over,
        earlier: enc.history.rows,
        clean: enc.history.faultless && enc.input.len() == 0,
    };
    lemma_load_carries_on(lines, enc, more, m);
}

/// A step in a longer batch is one in its front, and carrying on.
proof fn lemma_line_step_carries_on(
    lines: Lines,
    enc: Encoder,
    outcome: Outcome,
    more: Seq<u8>,
    m: nat,
)
    requires
        lines.row <= lines.count,
        lines.data.len() == lines.count * enc.width,
    ensures
        line_step(
            Lines { data: lines.data + more, count: lines.count + m, ..lines },
            enc,
            outcome,
        ) == carried_on(
            line_step(lines, enc, outcome),
            lines.data + more,
            lines.count + m,
        ),
{
    if let Outcome::Deflated { avail_in, produced, .. } = outcome {
        lemma_load_carries_on(lines, enc.with_deflated(avail_in, produced), more, m);
    }
}

/// The encoding of a batch, seen as that of a longer batch with the rows of `front` before it.
pub open spec fn behind(lines: Lines, front: Lines) -> Lines {
    Lines {
        data: front.data + lines.data,
        count: front.count + lines.count,
        row: front.count + lines.row,
        earlier: front.earlier,
        clean: front.clean,
        ..lines
    }
}

/// Loading rows of a batch does not depend on rows before it.
proof fn lemma_load_behind(lines: Lines, enc: Encoder, front: Lines)
    requires
        lines.row <= lines.count,
        lines.data.len() == lines.count * enc.width,
        front.data.len() == front.count * enc.width,
    ensures
        ({
            let step = load(lines, enc);
            load(behind(lines, front), enc) == (LineStep {
                lines: behind(step.lines, front),
                ..step
            })
        }),
    decreases lines.count - lines.row,
{
    if lines.row < lines.count {
        let width = enc.width;
        let (i, n) = (lines.row, front.count);
        lemma_row_within(i, lines.count, width, lines.data.len());
        assert((n + i) * width == n * width + i * width) by (nonlinear_arith);
        assert((n + i + 1) * width == n * width + (i + 1) * width) by (nonlinear_arith);
        let row = row_at(lines.data, width, i as int);
        assert(row_at(front.data + lines.data, width, (n + i) as int) =~= row);
        let next = enc.with_row(row);
        let rest = Lines { row: i + 1, ..lines };
        if next.input.len() == 0 {
            lemma_load_behind(rest, next, front);
        }
    }
}

/// A step in the encoding of a batch does not depend on rows before it.
proof fn lemma_line_step_behind(lines: Lines, enc: Encoder, outcome: Outcome, front: Lines)
    requires
        lines.row <= lines.count,
        lines.data.len() == lines.count * enc.width,
        front.data.len() == front.count * enc.width,
    ensures
        ({
            let step = line_step(lines, enc, outcome);
            line_step(behind(lines, front), enc, outcome) == (LineStep {
                lines: behind(step.lines, front),
                ..step
            })
        }),
{
    if let Outcome::Deflated { avail_in, produced, .. } = outcome {
        lemma_load_behind(lines, enc.with_deflated(avail_in, produced), front);
    }
}

/// Where a batch is done, carrying on with the rows behind it is beginning with them.
proof fn lemma_begin_behind(done: Lines, enc: Encoder, data: Seq<u8>, count: nat)
    requires
        done.row == done.count,
        done.stage == ScanlineStage::Over,
        done.data.len() == done.count * enc.width,
        data.len() == count * enc.width,
        count > 0,
    ensures
        ({
            let step = begin_lines(enc, data, count);
            load(Lines { data: done.data + data, count: done.count + count, ..done }, enc)
                == (LineStep { lines: behind(step.lines, done), ..step })
        }),
{
    let lines = Lines {
        data,
        count,
        row: 0,
        stage: ScanlineStage::Over,
        earlier: enc.history.rows,
        clean: enc.history.faultless && enc.input.len() == 0,
    };
    lemma_load_behind(lines, enc, done);
}

/// Runs one behind the other.
proof fn lemma_run_in_parts(step: LineStep, p: Seq<Outcome>, q: Seq<Outcome>)
    ensures
        run_lines(step, p + q) == run_lines(run_lines(step, p), q),
    decreases q.len(),
{
    if q.len() == 0 {
        assert(p + q =~= p);
    } else {
        lemma_run_in_parts(step, p, q.drop_last());
        assert((p + q).drop_last() =~= p + q.drop_last());
    }
}

/// Runs one behind the other are answered one behind the other.
proof fn lemma_answered_in_parts(step: LineStep, p: Seq<Outcome>, q: Seq<Outcome>)
    ensures
        lines_answered(step, p + q) == (lines_answered(step, p) && lines_answered(
            run_lines(step, p),
            q,
        )),
    decreases q.len(),
{
    if q.len() == 0 {
        assert(p + q =~= p);
    } else {
        lemma_answered_in_parts(step, p, q.drop_last());
        lemma_run_in_parts(step, p, q.drop_last());
        assert((p + q).drop_last() =~= p + q.drop_last());
    }
}

/// What the last outcome of the second of two runs adds to what has been written.
proof fn lemma_out_grows(step: LineStep, p: Seq<Outcome>, q: Seq<Outcome>) -> (last: Seq<u8>)
    requires
        q.len() > 0,
    ensures
        lines_out(run_lines(step, p), q) == lines_out(run_lines(step, p), q.drop_last()) + last,
        lines_out(step, p + q) == lines_out(step, p + q.drop_last()) + last,
{
    lemma_run_in_parts(step, p, q.drop_last());
    assert((p + q).drop_last() =~= p + q.drop_last());
    bytes_out(run_lines(run_lines(step, p), q.drop_last()).request, q.last())
}

/// Runs one behind the other write one behind the other.
proof fn lemma_out_in_parts(step: LineStep, p: Seq<Outcome>, q: Seq<Outcome>)
    ensures
        lines_out(step, p + q) == lines_out(step, p) + lines_out(run_lines(step, p), q),
    decreases q.len(),
{
    let end = run_lines(step, p);
    if q.len() == 0 {
        assert(p + q =~= p);
        assert(lines_out(end, q) =~= Seq::empty());
        assert(lines_out(step, p) + Seq::empty() =~= lines_out(step, p));
    } else {
        lemma_out_in_parts(step, p, q.drop_last());
        let last = lemma_out_grows(step, p, q);
        lemma_three(lines_out(step, p), lines_out(end, q.drop_last()), last);
    }
}

/// A run keeps to the same rows of the same image.
proof fn lemma_run_frame(step: LineStep, outcomes: Seq<Outcome>)
    requires
        step.lines.row <= step.lines.count,
        step.request == Request::Finished(true) ==> step.lines.row == step.lines.count
            && step.lines.stage == ScanlineStage::Over,
    ensures
        ({
            let end = run_lines(step, outcomes);
            &&& same_rows(end.lines, step.lines)
            &&& same_image(end.enc, step.enc)
            &&& end.lines.row <= end.lines.count
            &&& end.request == Request::Finished(true) ==> end.lines.row == end.lines.count
                && end.lines.stage == ScanlineStage::Over
        }),
    decreases outcomes.len(),
{
    if outcomes.len() > 0 {
        lemma_run_frame(step, outcomes.drop_last());
        let before = run_lines(step, outcomes.drop_last());
        lemma_line_step_frame(before.lines, before.enc, outcomes.last());
    }
}

/// A run over a longer batch is one over its front, and carrying on.
proof fn lemma_run_carries_on(
    enc: Encoder,
    a: Seq<u8>,
    n: nat,
    b: Seq<u8>,
    m: nat,
    outcomes: Seq<Outcome>,
)
    requires
        n > 0,
        a.len() == n * enc.width,
        lines_answered(begin_lines(enc, a, n), outcomes),
    ensures
        ({
            let first = begin_lines(enc, a, n);
            let whole = begin_lines(enc, a + b, n + m);
            &&& run_lines(whole, outcomes) == carried_on(
                run_lines(first, outcomes),
                a + b,
                n + m,
            )
            &&& lines_answered(whole, outcomes)
            &&& lines_out(whole, outcomes) == lines_out(first, outcomes)
        }),
    decreases outcomes.len(),
{
    let first = begin_lines(enc, a, n);
    lemma_begin_lines_frame(enc, a, n);
    if outcomes.len() == 0 {
        lemma_begin_carries_on(enc, a, n, b, m);
    } else {
        let shorter = outcomes.drop_last();
        lemma_run_carries_on(enc, a, n, b, m, shorter);
        lemma_run_frame(first, shorter);
        let before = run_lines(first, shorter);
        lemma_line_step_carries_on(before.lines, before.enc, outcomes.last(), b, m);
    }
}

/// A run over a batch does not depend on rows before it.
proof fn lemma_run_behind(step: LineStep, outcomes: Seq<Outcome>, front: Lines)
    requires
        step.lines.row <= step.lines.count,
        step.request == Request::Finished(true) ==> step.lines.row == step.lines.count
            && step.lines.stage == ScanlineStage::Over,
        step.lines.data.len() == step.lines.count * step.enc.width,
        front.data.len() == front.count * step.enc.width,
    ensures
        ({
            let end = run_lines(step, outcomes);
            let later = LineStep { lines: behind(step.lines, front), ..step };
            &&& run_lines(later, outcomes) == (LineStep {
                lines: behind(end.lines, front),
                ..end
            })
            &&& lines_answered(later, outcomes) == lines_answered(step, outcomes)
            &&& lines_out(later, outcomes) == lines_out(step, outcomes)
        }),
    decreases outcomes.len(),
{
    if outcomes.len() > 0 {
        let shorter = outcomes.drop_last();
        lemma_run_behind(step, shorter, front);
        lemma_run_frame(step, shorter);
        let before = run_lines(step, shorter);
        lemma_line_step_behind(before.lines, before.enc, outcomes.last(), front);
    }
}

/// How an image is cut into batches makes no difference. Where `n` rows were encoded to a good
/// end, and `m` rows behind them as a batch of their own, encoding all of them as one batch
/// asks for the same actions at every step, with the same state of the encoder; it takes the
/// same outcomes, writes the same bytes and ends in the same way.
pub proof fn law_batching_makes_no_difference(
    enc: Encoder,
    a: Seq<u8>,
    n: nat,
    p: Seq<Outcome>,
    b: Seq<u8>,
    m: nat,
    q: Seq<Outcome>,
)
    requires
        a.len() == n * enc.width,
        b.len() == m * enc.width,
        m > 0,
        lines_answered(begin_lines(enc, a, n), p),
        run_lines(begin_lines(enc, a, n), p).request == Request::Finished(true),
    ensures
        ({
            let first = begin_lines(enc, a, n);
            let second = begin_lines(run_lines(first, p).enc, b, m);
            let whole = begin_lines(enc, a + b, n + m);
            &&& run_lines(whole, p + q).enc == run_lines(second, q).enc
            &&& run_lines(whole, p + q).request == run_lines(second, q).request
            &&& run_lines(whole, p + q).error == run_lines(second, q).error
            &&& forall|k: int|
                #![trigger p.take(k)]
                0 <= k < p.len() ==> {
                    &&& run_lines(whole, p.take(k)).enc == run_lines(first, p.take(k)).enc
                    &&& run_lines(whole, p.take(k)).request == run_lines(
                        first,
                        p.take(k),
                    ).request
                    &&& run_lines(whole, p.take(k)).error == run_lines(first, p.take(k)).error
                }
            &&& lines_answered(whole, p + q) == lines_answered(second, q)
            &&& lines_out(whole, p + q) == lines_out(first, p) + lines_out(second, q)
        }),
{
    let first = begin_lines(enc, a, n);
    let whole = begin_lines(enc, a + b, n + m);
    let done = run_lines(first, p);
    lemma_has_rows(enc, a, n, p);
    lemma_begin_lines_frame(enc, a, n);
    lemma_run_frame(first, p);
    lemma_run_carries_on(enc, a, n, b, m, p);
    lemma_begin_behind(done.lines, done.enc, b, m);
    let second = begin_lines(done.enc, b, m);
    lemma_begin_lines_frame(done.enc, b, m);
    lemma_run_behind(second, q, done.lines);
    lemma_run_in_parts(whole, p, q);
    lemma_answered_in_parts(whole, p, q);
    lemma_out_in_parts(whole, p, q);
    assert forall|k: int|
        #![trigger p.take(k)]
        0 <= k < p.len() implies {
        &&& run_lines(whole, p.take(k)).enc == run_lines(first, p.take(k)).enc
        &&& run_lines(whole, p.take(k)).request == run_lines(first, p.take(k)).request
        &&& run_lines(whole, p.take(k)).error == run_lines(first, p.take(k)).error
    } by {
        lemma_front_is_the_same(enc, a, n, p, b, m, k);
    }
}

/// A batch without rows does not come to a good end.
proof fn lemma_has_rows(enc: Encoder, a: Seq<u8>, n: nat, p: Seq<Outcome>)
    requires
        lines_answered(begin_lines(enc, a, n), p),
        run_lines(begin_lines(enc, a, n), p).request == Request::Finished(true),
    ensures
        n > 0,
{
    let first = begin_lines(enc, a, n);
    if n == 0 && p.len() > 0 {
        lemma_answered_front(first, p, 1);
        assert(p.take(1).drop_last() =~= Seq::empty());
    }
}

/// Up to the end of its front the encoding of a longer batch is that of the front.
proof fn lemma_front_is_the_same(
    enc: Encoder,
    a: Seq<u8>,
    n: nat,
    p: Seq<Outcome>,
    b: Seq<u8>,
    m: nat,
    k: int,
)
    requires
        n > 0,
        a.len() == n * enc.width,
        lines_answered(begin_lines(enc, a, n), p),
        0 <= k < p.len(),
    ensures
        ({
            let first = run_lines(begin_lines(enc, a, n), p.take(k));
            let whole = run_lines(begin_lines(enc, a + b, n + m), p.take(k));
            &&& whole.enc == first.enc
            &&& whole.request == first.request
            &&& whole.error == first.error
        }),
{
    let first = begin_lines(enc, a, n);
    lemma_begin_lines_frame(enc, a, n);
    lemma_answered_front(first, p, k);
    lemma_answered_front(first, p, k + 1);
    assert(p.take(k + 1).drop_last() =~= p.take(k));
    lemma_run_frame(first, p.take(k));
    lemma_run_carries_on(enc, a, n, b, m, p.take(k));
}

/// What answers a run answers its front.
proof fn lemma_answered_front(step: LineStep, outcomes: Seq<Outcome>, k: int)
    requires
        0 <= k <= outcomes.len(),
        lines_answered(step, outcomes),
    ensures
        lines_answered(step, outcomes.take(k)),
{
    assert(outcomes =~= outcomes.take(k) + outcomes.skip(k));
    lemma_answered_in_parts(step, outcomes.take(k), outcomes.skip(k));
}

} // verus!

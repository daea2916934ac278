//! Closing a file: bring the compressed stream to its end, write what is left of it and the
//! end chunk.
use crate::chunk::{chunk, write_chunk, IDAT, IEND};
use crate::driver::{
    coded, error_after, reasoned, Action, Event, Flush, Outcome, Request, Z_BUF_ERROR, Z_OK,
    Z_STREAM_END,
};
use crate::encoder::{
    are_full, blank, law_deflate_keeps_order, law_end_completes, law_faults_keep_order,
    law_idat_keeps_order, law_rest_keeps_order, law_sizes, law_stream_end_keeps_order, Encoder,
    Phase, PngEncoder, OUT_BUF_SIZE,
};
use crate::last_error::{set_last_error, LastError};
use crate::png_file::{
    cut, end_chunk, joined, law_cut_is_exact, law_pieces_are_the_cut, law_png_file_reads_back,
    png_file, read_png, ReadPng,
};
use crate::scanlines::same_image;
use crate::text::signed_decimal;
use crate::unfilter::{law_rows_survive, read_rows, stream_rows};
use vstd::prelude::*;
use vstd::string::*;

verus! {

/// What closing a file waits for.
#[derive(Clone, Copy, Debug, PartialEq, Eq, Structural)]
pub enum CloseStage {
    /// A step of the compressor.
    Deflate,
    /// The write of an IDAT chunk with more to come.
    Write,
    /// The write of the last IDAT chunk.
    WriteRest,
    /// The write of the end chunk.
    WriteEnd,
    /// The writer's flush.
    Flush,
    /// The compressor's release.
    End,
    /// Nothing.
    Over,
}

/// The closing of a file as a mathematical value.
pub struct Closing {
    pub enc: Encoder,
    pub stage: CloseStage,
}

/// A step in closing a file.
pub struct CloseStep {
    pub closing: Closing,
    pub request: Request,
    pub error: Option<Seq<char>>,
}

/// Goes on with a request.
pub open spec fn proceed(enc: Encoder, stage: CloseStage, request: Request) -> CloseStep {
    CloseStep { closing: Closing { enc, stage }, request, error: None }
}

/// Gives up with a message.
pub open spec fn give_up(enc: Encoder, message: Seq<char>) -> CloseStep {
    CloseStep {
        closing: Closing { enc: enc.with_fault(), stage: CloseStage::Over },
        request: Request::Finished(false),
        error: Some(message),
    }
}

/// Goes on with the compressor, or first with an IDAT chunk where there is no room left.
pub open spec fn drain(enc: Encoder) -> CloseStep {
    if enc.output.len() == OUT_BUF_SIZE {
        proceed(enc, CloseStage::Write, Request::Write(chunk(IDAT@, enc.output)))
    } else {
        proceed(enc, CloseStage::Deflate, Request::Deflate(Flush::Finish))
    }
}

/// Goes on behind the end of the compressed stream, with an IDAT chunk if there is output.
pub open spec fn wind_up(enc: Encoder) -> CloseStep {
    if enc.output.len() > 0 {
        proceed(enc, CloseStage::WriteRest, Request::Write(chunk(IDAT@, enc.output)))
    } else {
        proceed(enc, CloseStage::WriteEnd, Request::Write(end_chunk()))
    }
}

/// Begins to close a file. What the compressor has not taken in is dropped.
pub open spec fn begin_close(enc: Encoder) -> CloseStep {
    drain(enc.without_input())
}

/// Goes on after the compressor or the writer.
pub open spec fn close_step(closing: Closing, outcome: Outcome) -> CloseStep {
    let enc = closing.enc;
    match (closing.stage, outcome) {
        (CloseStage::Deflate, Outcome::Deflated { code, avail_in, produced }) => {
            let after = enc.with_deflated(avail_in, produced);
            if code == Z_STREAM_END {
                wind_up(after)
            } else if code != Z_OK && code != Z_BUF_ERROR {
                give_up(after, "ZLIB deflate finish error code: "@ + signed_decimal(code as int))
            } else {
                drain(after)
            }
        },
        (CloseStage::Write, Outcome::Written) => drain(enc.with_idat()),
        (CloseStage::Write, _) => give_up(
            enc,
            "IO Write Error during final stream flush: Failed to write IDAT chunk"@,
        ),
        (CloseStage::WriteRest, Outcome::Written) => wind_up(enc.with_idat()),
        (CloseStage::WriteRest, _) => give_up(
            enc,
            "IO Write Error writing remaining IDAT data: Failed to write IDAT chunk"@,
        ),
        (CloseStage::WriteEnd, Outcome::Written) => proceed(
            enc.with_end(),
            CloseStage::Flush,
            Request::FlushWriter,
        ),
        (CloseStage::WriteEnd, Outcome::Failed { message }) => give_up(
            enc,
            "IO Write Error writing IEND chunk: "@ + message,
        ),
        (CloseStage::Flush, Outcome::Flushed) => proceed(
            enc,
            CloseStage::End,
            Request::EndDeflate,
        ),
        (CloseStage::Flush, Outcome::Failed { message }) => give_up(
            enc,
            "IO Flush Error: "@ + message,
        ),
        (CloseStage::End, Outcome::Ended) => proceed(
            enc,
            CloseStage::Over,
            Request::Finished(true),
        ),
        (_, _) => CloseStep { closing, request: Request::Finished(false), error: None },
    }
}

/// The file is whole: the bytes written are a PNG file whose image data is what the compressor
/// produced, cut into chunks of which all but the last are full, and if nothing ever failed the
/// compressor has been given all rows, filtered. (A row with more bytes than 32 bits can count
/// is not handed over whole.)
pub open spec fn is_whole(enc: Encoder) -> bool {
    let s = enc.settings;
    let h = enc.history;
    &&& h.written == png_file(s.width, s.height, s.bit_depth, s.color_type, h.payloads)
    &&& joined(h.payloads) == h.produced
    &&& forall|i: int|
        0 <= i < h.payloads.len() ==> 0 < (#[trigger] h.payloads[i]).len() <= OUT_BUF_SIZE
    &&& are_full(h.payloads, h.payloads.len() - 1)
    &&& h.faultless && enc.is_handed_whole() ==> h.consumed == stream_rows(
        s.filter_type,
        h.rows,
        blank(enc.width),
        enc.bpp,
    )
}

/// An encoder with empty buffers behind the end chunk has written a whole file.
pub proof fn law_ended_is_whole(enc: Encoder)
    requires
        enc.inv(Phase::Ended),
        enc.input.len() == 0,
        enc.output.len() == 0,
    ensures
        is_whole(enc),
{
    reveal(Encoder::inv);
    assert(joined(enc.history.payloads) + enc.output =~= joined(enc.history.payloads));
    assert(enc.history.consumed + enc.input =~= enc.history.consumed);
}

/// The bytes of a whole file are fixed by the settings and by what the compressor produced:
/// signature, header, its output in IDAT chunks that are full up to the last one, and the end.
/// There is at least one IDAT chunk if the compressor produced anything.
pub proof fn law_whole_file_is_the_cut_stream(enc: Encoder)
    requires
        is_whole(enc),
    ensures
        ({
            let s = enc.settings;
            let h = enc.history;
            &&& h.payloads == cut(h.produced, OUT_BUF_SIZE as nat)
            &&& h.written == png_file(
                s.width,
                s.height,
                s.bit_depth,
                s.color_type,
                cut(h.produced, OUT_BUF_SIZE as nat),
            )
            &&& h.produced.len() > 0 ==> h.payloads.len() >= 1
        }),
{
    law_pieces_are_the_cut(enc.history.payloads, OUT_BUF_SIZE as nat);
    law_cut_is_exact(enc.history.produced, OUT_BUF_SIZE as nat);
}

/// A reader finds in a whole file the settings and everything that the compressor produced.
pub proof fn law_whole_file_reads_back(enc: Encoder)
    requires
        is_whole(enc),
    ensures
        read_png(enc.history.written) == Some(
            ReadPng {
                width: enc.settings.width as nat,
                height: enc.settings.height as nat,
                bit_depth: enc.settings.bit_depth,
                color_type: enc.settings.color_type,
                compressed: enc.history.produced,
            },
        ),
{
    let s = enc.settings;
    law_png_file_reads_back(s.width, s.height, s.bit_depth, s.color_type, enc.history.payloads);
}

/// A whole file gives the image back: what the compressor was given reads as the rows that
/// were encoded.
pub proof fn law_whole_file_gives_image_back(enc: Encoder)
    requires
        enc.inv(Phase::Ended),
        is_whole(enc),
        enc.history.faultless,
        enc.is_handed_whole(),
    ensures
        read_rows(
            enc.history.consumed,
            enc.history.rows.len(),
            enc.width,
            blank(enc.width),
            enc.bpp,
        ) == enc.history.rows,
{
    let s = enc.settings;
    let h = enc.history;
    law_sizes(enc, Phase::Ended);
    assert(forall|i: int| 0 <= i < h.rows.len() ==> (#[trigger] h.rows[i]).len() == enc.width) by {
        reveal(Encoder::inv);
    }
    law_rows_survive(s.filter_type, h.rows, enc.width, blank(enc.width), enc.bpp);
}

/// What a step in closing leads to is in order: it is the same image with the same rows, as
/// faultless as before unless the step gave up, and at the end the file is whole.
pub open spec fn leads_on(step: CloseStep, enc: Encoder) -> bool {
    let after = step.closing.enc;
    &&& step.closing.in_order()
    &&& same_image(after, enc)
    &&& after.history.rows == enc.history.rows
    &&& step.request != Request::Finished(false) ==> after.history.faultless
        == enc.history.faultless
    &&& step.request == Request::Finished(true) ==> is_whole(after) && after.inv(Phase::Ended)
}

/// The beginning of the closing keeps an encoder in order.
pub proof fn law_begin_close_keeps_order(enc: Encoder)
    requires
        enc.inv(Phase::Open),
    ensures
        leads_on(begin_close(enc), enc.without_input()),
{
    law_faults_keep_order(enc, Phase::Open);
    law_sizes(enc, Phase::Open);
}

/// Every step of the closing keeps the encoder in order, with the same rows of the same image.
/// Behind the last step the file is whole.
pub proof fn law_close_step_keeps_order(closing: Closing, outcome: Outcome)
    requires
        closing.in_order(),
        closing.answered_by(outcome),
    ensures
        leads_on(close_step(closing, outcome), closing.enc),
{
    let enc = closing.enc;
    match outcome {
        Outcome::Deflated { avail_in, produced, .. } => {
            law_deflate_keeps_order(enc, avail_in, produced);
            law_sizes(enc.with_deflated(avail_in, produced), Phase::Open);
            law_stream_end_keeps_order(enc.with_deflated(avail_in, produced));
        },
        Outcome::Written => {
            if closing.stage == CloseStage::WriteEnd {
                law_end_completes(enc);
            } else if closing.stage == CloseStage::WriteRest {
                law_rest_keeps_order(enc);
            } else {
                law_idat_keeps_order(enc);
            }
        },
        Outcome::Ended => {
            law_ended_is_whole(enc);
        },
        _ => {},
    }
}

/// The closing of a file.
pub struct CloseJob {
    enc: PngEncoder,
    stage: CloseStage,
}

impl View for CloseJob {
    type V = Closing;

    closed spec fn view(&self) -> Closing {
        Closing { enc: self.enc@, stage: self.stage }
    }
}

impl Closing {
    /// What holds between two steps. The compressor is run only with room for output, and
    /// nothing of its output is left behind the end chunk.
    pub open spec fn in_order(self) -> bool {
        let e = self.enc;
        match self.stage {
            CloseStage::Over => true,
            CloseStage::Flush | CloseStage::End => {
                &&& e.inv(Phase::Ended)
                &&& e.input.len() == 0
                &&& e.output.len() == 0
            },
            CloseStage::Deflate | CloseStage::Write => {
                &&& e.inv(Phase::Open)
                &&& e.input.len() == 0
                &&& self.stage == CloseStage::Deflate ==> e.output.len() < OUT_BUF_SIZE
                &&& self.stage == CloseStage::Write ==> e.output.len() == OUT_BUF_SIZE
            },
            CloseStage::WriteRest | CloseStage::WriteEnd => {
                &&& e.inv(Phase::Drained)
                &&& e.input.len() == 0
                &&& self.stage == CloseStage::WriteRest ==> e.output.len() > 0
                &&& self.stage == CloseStage::WriteEnd ==> e.output.len() == 0
            },
        }
    }

    /// Whether `outcome` answers what is being waited for. A compressor without input takes
    /// none, and produces no more than it has room for.
    pub open spec fn answered_by(self, outcome: Outcome) -> bool {
        match self.stage {
            CloseStage::Deflate => outcome matches Outcome::Deflated { avail_in, produced, .. } && {
                &&& avail_in == 0
                &&& self.enc.output.len() + produced.len() <= OUT_BUF_SIZE
            },
            CloseStage::Write | CloseStage::WriteRest | CloseStage::WriteEnd => {
                outcome is Written || outcome is Failed
            },
            CloseStage::Flush => outcome is Flushed || outcome is Failed,
            CloseStage::End => outcome is Ended,
            CloseStage::Over => false,
        }
    }
}

impl CloseJob {
    /// The encoder that is being closed.
    pub fn encoder(&self) -> (r: &PngEncoder)
        ensures
            r@ == self@.enc,
            self.wf() && self@.stage == CloseStage::Deflate ==> r.wf(),
    {
        &self.enc
    }

    /// What holds between two steps.
    pub closed spec fn wf(self) -> bool {
        &&& self@.in_order()
        &&& self.stage != CloseStage::Over ==> self.enc.buffers_fit()
    }

    /// Goes on with the compressor or an IDAT chunk.
    fn drain(&mut self) -> (action: Action)
        requires
            old(self).buffers_are_drained(),
        ensures
            final(self)@ == drain(old(self)@.enc).closing,
            action@ == drain(old(self)@.enc).request,
            final(self).wf(),
    {
        proof {
            law_sizes(self.enc@, Phase::Open);
        }
        if self.enc.avail_out() == 0 {
            if let Some(bytes) = self.enc.write_idat() {
                self.stage = CloseStage::Write;
                return Action::Write(bytes);
            }
        }
        self.stage = CloseStage::Deflate;
        Action::Deflate(Flush::Finish)
    }

    /// The encoder is in order and has no input.
    closed spec fn buffers_are_drained(self) -> bool {
        self.enc.wf() && self.enc@.input.len() == 0
    }

    /// The compressed stream has come to its end, and the encoder has no input.
    closed spec fn stream_has_ended(self) -> bool {
        self.enc.wf_drained() && self.enc@.input.len() == 0
    }

    /// Goes on behind the end of the compressed stream.
    fn wind_up(&mut self) -> (action: Action)
        requires
            old(self).stream_has_ended(),
        ensures
            final(self)@ == wind_up(old(self)@.enc).closing,
            action@ == wind_up(old(self)@.enc).request,
            final(self).wf(),
    {
        if let Some(bytes) = self.enc.write_idat() {
            self.stage = CloseStage::WriteRest;
            return Action::Write(bytes);
        }
        let mut bytes: Vec<u8> = Vec::new();
        let none: Vec<u8> = Vec::new();
        write_chunk(&mut bytes, &IEND, &none);
        assert(none@ =~= Seq::empty());
        assert(bytes@ =~= end_chunk());
        self.stage = CloseStage::WriteEnd;
        Action::Write(bytes)
    }

    /// Gives up with a message.
    fn give_up(&mut self, last: &mut LastError, message: &str) -> (action: Action)
        ensures
            final(self)@ == give_up(old(self)@.enc, message@).closing,
            action@ == Request::Finished(false),
            final(last)@ == message@,
            final(self).wf(),
    {
        set_last_error(last, message);
        self.enc.note_fault();
        self.stage = CloseStage::Over;
        Action::Finished(false)
    }

    /// Goes on after the compressor.
    fn after_deflate(&mut self, last: &mut LastError, code: i32, avail_in: u32, produced: &[u8])
        -> (action: Action)
        requires
            old(self).wf(),
            old(self)@.stage == CloseStage::Deflate,
            old(self)@.answered_by(
                Outcome::Deflated { code, avail_in: avail_in as nat, produced: produced@ },
            ),
        ensures
            ({
                let step = close_step(
                    old(self)@,
                    Outcome::Deflated { code, avail_in: avail_in as nat, produced: produced@ },
                );
                &&& final(self)@ == step.closing
                &&& action@ == step.request
                &&& final(last)@ == error_after(old(last)@, step.error)
            }),
            final(self).wf(),
            !(action@ == Request::Finished(true)),
    {
        self.enc.note_deflated(avail_in, produced);
        if code == Z_STREAM_END {
            proof {
                law_stream_end_keeps_order(self.enc@);
            }
            self.wind_up()
        } else if code != Z_OK && code != Z_BUF_ERROR {
            let message = coded("ZLIB deflate finish error code: ", code);
            self.give_up(last, message.as_str())
        } else {
            self.drain()
        }
    }

    /// Goes on after the compressor or the writer, up to the next action. `Finished(true)`
    /// comes when the file is whole.
    pub fn step(&mut self, last: &mut LastError, event: Event<'_>) -> (action: Action)
        requires
            old(self).wf(),
            old(self)@.answered_by(event@),
        ensures
            ({
                let step = close_step(old(self)@, event@);
                &&& final(self)@ == step.closing
                &&& action@ == step.request
                &&& final(last)@ == error_after(old(last)@, step.error)
            }),
            final(self).wf(),
            action@ == Request::Finished(true) ==> {
                &&& is_whole(final(self)@.enc)
                &&& final(self)@.enc.inv(Phase::Ended)
            },
    {
        match (self.stage, event) {
            (CloseStage::Deflate, Event::Deflated { code, avail_in, produced }) => {
                self.after_deflate(last, code, avail_in, produced)
            },
            (CloseStage::Write, Event::Written) => {
                self.enc.note_idat();
                self.drain()
            },
            (CloseStage::Write, _) => self.give_up(
                last,
                "IO Write Error during final stream flush: Failed to write IDAT chunk",
            ),
            (CloseStage::WriteRest, Event::Written) => {
                self.enc.note_idat();
                self.wind_up()
            },
            (CloseStage::WriteRest, _) => self.give_up(
                last,
                "IO Write Error writing remaining IDAT data: Failed to write IDAT chunk",
            ),
            (CloseStage::WriteEnd, Event::Written) => {
                self.enc.note_end();
                self.stage = CloseStage::Flush;
                Action::FlushWriter
            },
            (CloseStage::WriteEnd, Event::Failed { message }) => {
                let text = reasoned("IO Write Error writing IEND chunk: ", message);
                self.give_up(last, text.as_str())
            },
            (CloseStage::Flush, Event::Flushed) => {
                self.stage = CloseStage::End;
                Action::EndDeflate
            },
            (CloseStage::Flush, Event::Failed { message }) => {
                let text = reasoned("IO Flush Error: ", message);
                self.give_up(last, text.as_str())
            },
            (CloseStage::End, Event::Ended) => {
                proof {
                    law_ended_is_whole(self.enc@);
                }
                self.stage = CloseStage::Over;
                Action::Finished(true)
            },
            (_, _) => Action::Finished(false),
        }
    }
}

/// Begins to close the file of `enc`, which is used up. The dialogue goes on with
/// `CloseJob::step`.
pub fn close_png_encode(enc: PngEncoder) -> (r: (CloseJob, Action))
    requires
        enc.wf(),
    ensures
        r.0@ == begin_close(enc@).closing,
        r.1@ == begin_close(enc@).request,
        r.0.wf(),
{
    let mut job = CloseJob { enc, stage: CloseStage::Over };
    job.enc.drop_input();
    let action = job.drain();
    (job, action)
}

} // verus!

//! Opening a file: create it, write signature and header, set up the compressor.
use crate::chunk::{chunk, write_chunk, IHDR, PNG_MAGIC};
use crate::driver::{coded, error_after, Action, Event, Outcome, Request, Z_OK};
use crate::encoder::{channels_of, opened, row_fits, Encoder, PngEncoder, Settings};
use crate::last_error::{set_last_error, LastError};
use crate::options::ZlibOptions;
use crate::png_file::{ihdr_data, make_ihdr};
use crate::text::signed_decimal;
use vstd::prelude::*;
use vstd::string::*;

verus! {

/// What opening a file waits for.
#[derive(Clone, Copy, Debug, PartialEq, Eq, Structural)]
pub enum OpenStage {
    /// The creation of the file.
    Create,
    /// The write of the signature.
    Magic,
    /// The write of the header chunk.
    Header,
    /// The set-up of the compressor.
    Init,
    /// Nothing.
    Over,
}

/// The opening of a file.
#[derive(Clone, Copy, Debug, PartialEq, Eq, Structural)]
pub struct OpenJob {
    pub settings: Settings,
    pub options: ZlibOptions,
    pub stage: OpenStage,
}

/// What opening a file leads to.
pub enum OpenReply {
    /// There is more to do.
    Do(Action),
    /// The file is open.
    Ready(PngEncoder),
    /// The file could not be opened.
    Failed,
}

/// A reply as a mathematical value.
pub enum Opened {
    Do(Request),
    Ready(Encoder),
    Failed,
}

impl View for OpenReply {
    type V = Opened;

    open spec fn view(&self) -> Opened {
        match self {
            OpenReply::Do(action) => Opened::Do(action@),
            OpenReply::Ready(enc) => Opened::Ready(enc@),
            OpenReply::Failed => Opened::Failed,
        }
    }
}

/// A step in opening a file.
pub struct OpenStep {
    pub job: OpenJob,
    pub reply: Opened,
    pub error: Option<Seq<char>>,
}

/// Goes on with a request.
pub open spec fn proceed(job: OpenJob, stage: OpenStage, request: Request) -> OpenStep {
    OpenStep { job: OpenJob { stage, ..job }, reply: Opened::Do(request), error: None }
}

/// Gives up with a message.
pub open spec fn refuse(job: OpenJob, message: Seq<char>) -> OpenStep {
    OpenStep {
        job: OpenJob { stage: OpenStage::Over, ..job },
        reply: Opened::Failed,
        error: Some(message),
    }
}

/// The header chunk for these settings.
pub open spec fn header_chunk(s: Settings) -> Seq<u8> {
    chunk(IHDR@, ihdr_data(s.width, s.height, s.bit_depth, s.color_type))
}

/// Goes on after the file system, the writer or the compressor. A color type that PNG does not
/// know is found out only behind the header chunk.
pub open spec fn open_step(job: OpenJob, outcome: Outcome) -> OpenStep {
    match (job.stage, outcome) {
        (OpenStage::Create, Outcome::Created) => proceed(
            job,
            OpenStage::Magic,
            Request::Write(PNG_MAGIC@),
        ),
        (OpenStage::Create, _) => refuse(job, "Could not create output file"@),
        (OpenStage::Magic, Outcome::Written) => proceed(
            job,
            OpenStage::Header,
            Request::Write(header_chunk(job.settings)),
        ),
        (OpenStage::Magic, _) => refuse(job, "Failed to write PNG magic"@),
        (OpenStage::Header, Outcome::Written) => if channels_of(job.settings.color_type) is None {
            refuse(job, "Unsupported color type"@)
        } else {
            proceed(job, OpenStage::Init, Request::InitDeflate(job.options))
        },
        (OpenStage::Header, _) => refuse(job, "Failed to write IHDR"@),
        (OpenStage::Init, Outcome::Initialized { code }) => if code != Z_OK {
            refuse(job, "ZLIB Init failed with code: "@ + signed_decimal(code as int))
        } else {
            OpenStep {
                job: OpenJob { stage: OpenStage::Over, ..job },
                reply: Opened::Ready(opened(job.settings)),
                error: None,
            }
        },
        (_, _) => OpenStep { job, reply: Opened::Failed, error: None },
    }
}

/// Opening goes through: with a color type that PNG knows, and where every action succeeds,
/// the opened encoder comes after the writes of what it counts as written.
pub proof fn law_opening_writes_the_start(settings: Settings, options: ZlibOptions)
    requires
        channels_of(settings.color_type) is Some,
    ensures
        ({
            let create = OpenJob { settings, options, stage: OpenStage::Create };
            let magic = open_step(create, Outcome::Created);
            let header = open_step(magic.job, Outcome::Written);
            let init = open_step(header.job, Outcome::Written);
            let ready = open_step(init.job, Outcome::Initialized { code: Z_OK });
            &&& magic.reply == Opened::Do(Request::Write(PNG_MAGIC@))
            &&& header.reply == Opened::Do(Request::Write(header_chunk(settings)))
            &&& init.reply == Opened::Do(Request::InitDeflate(options))
            &&& ready.reply == Opened::Ready(opened(settings))
            &&& PNG_MAGIC@ + header_chunk(settings) == opened(settings).history.written
        }),
{
}

impl OpenJob {
    /// What holds between two steps: the compressor is set up for known color types only.
    pub open spec fn inv(self) -> bool {
        &&& row_fits(self.settings.width, self.settings.bit_depth, self.settings.color_type)
        &&& self.stage == OpenStage::Init ==> channels_of(self.settings.color_type) is Some
    }

    /// Whether `outcome` answers what is being waited for.
    pub open spec fn answered_by(self, outcome: Outcome) -> bool {
        match self.stage {
            OpenStage::Create => outcome is Created || outcome is Failed,
            OpenStage::Magic | OpenStage::Header => outcome is Written || outcome is Failed,
            OpenStage::Init => outcome is Initialized,
            OpenStage::Over => false,
        }
    }

    /// Gives up with a message.
    fn refuse(&mut self, last: &mut LastError, message: &str) -> (reply: OpenReply)
        ensures
            *final(self) == refuse(*old(self), message@).job,
            reply@ == Opened::Failed,
            final(last)@ == message@,
    {
        set_last_error(last, message);
        self.stage = OpenStage::Over;
        OpenReply::Failed
    }

    /// Goes on after the file system, the writer or the compressor, up to the next action or
    /// the opened encoder.
    pub fn step(&mut self, last: &mut LastError, event: Event<'_>) -> (reply: OpenReply)
        requires
            old(self).inv(),
            old(self).answered_by(event@),
        ensures
            ({
                let step = open_step(*old(self), event@);
                &&& *final(self) == step.job
                &&& reply@ == step.reply
                &&& final(last)@ == error_after(old(last)@, step.error)
            }),
            final(self).inv(),
            reply matches OpenReply::Ready(enc) ==> enc.wf(),
    {
        match self.stage {
            OpenStage::Create => {
                if let Event::Created = event {
                    self.stage = OpenStage::Magic;
                    OpenReply::Do(Action::Write(magic()))
                } else {
                    self.refuse(last, "Could not create output file")
                }
            },
            OpenStage::Magic => {
                if let Event::Written = event {
                    let s: Settings = self.settings;
                    let ihdr = make_ihdr(s.width, s.height, s.bit_depth, s.color_type);
                    let mut bytes: Vec<u8> = Vec::new();
                    write_chunk(&mut bytes, &IHDR, &ihdr);
                    assert(bytes@ =~= header_chunk(s));
                    self.stage = OpenStage::Header;
                    OpenReply::Do(Action::Write(bytes))
                } else {
                    self.refuse(last, "Failed to write PNG magic")
                }
            },
            OpenStage::Header => {
                if let Event::Written = event {
                    match self.settings.color_type {
                        0 | 2 | 3 | 4 | 6 => {
                            self.stage = OpenStage::Init;
                            OpenReply::Do(Action::InitDeflate(self.options))
                        },
                        _ => self.refuse(last, "Unsupported color type"),
                    }
                } else {
                    self.refuse(last, "Failed to write IHDR")
                }
            },
            _ => {
                if let Event::Initialized { code } = event {
                    if code != Z_OK {
                        let message = coded("ZLIB Init failed with code: ", code);
                        return self.refuse(last, message.as_str());
                    }
                }
                self.stage = OpenStage::Over;
                OpenReply::Ready(PngEncoder::new(self.settings))
            },
        }
    }
}

/// The signature.
fn magic() -> (r: Vec<u8>)
    ensures
        r@ == PNG_MAGIC@,
{
    let mut bytes: Vec<u8> = Vec::new();
    crate::chunk::push_all(&mut bytes, &PNG_MAGIC);
    assert(bytes@ =~= PNG_MAGIC@);
    bytes
}

/// Begins to open a file that is still to be created.
pub fn open_png_encode(settings: Settings, options: ZlibOptions) -> (r: (OpenJob, Action))
    requires
        row_fits(settings.width, settings.bit_depth, settings.color_type),
    ensures
        r.0 == (OpenJob { settings, options, stage: OpenStage::Create }),
        r.0.inv(),
        r.1@ == Request::CreateFile,
{
    (OpenJob { settings, options, stage: OpenStage::Create }, Action::CreateFile)
}

/// Begins to open a stream that is ready to be written to.
pub fn open_png_encode_stream(settings: Settings, options: ZlibOptions) -> (r: (OpenJob, Action))
    requires
        row_fits(settings.width, settings.bit_depth, settings.color_type),
    ensures
        r.0 == (OpenJob { settings, options, stage: OpenStage::Magic }),
        r.0.inv(),
        r.1@ == Request::Write(PNG_MAGIC@),
{
    (OpenJob { settings, options, stage: OpenStage::Magic }, Action::Write(magic()))
}

} // verus!

//! Job lifecycle decisions: interpreting a backend response during the
//! submit/poll cycle of one transcription job, and the fixed decoding
//! configuration submitted with every job.
//!
//! The blocking work — the HTTP calls and the wait between polls — stays with
//! the caller, which performs the action each step directs and hands the next
//! response back; every decision is made here.

use vstd::prelude::*;

use crate::align::WordToken;

verus! {

/// Status of a remote transcription job. `Other` stands for any status
/// string the protocol does not name; it is treated as still in flight.
#[derive(PartialEq, Eq, Structural, Clone, Copy, Debug)]
pub enum JobStatus {
    Queued,
    InProgress,
    Completed,
    Failed,
    Other,
}

/// The result payload of a completed job.
pub struct RunpodResult {
    pub detected_language: String,
    pub word_timestamps: Vec<WordToken>,
}

/// One decoded response of the job API, after submission or during polling.
pub struct ApiResponse {
    pub id: Option<String>,
    pub status: String,
    pub output: Option<RunpodResult>,
}

/// Why a job produced no result.
pub enum JobError {
    /// Transport-level failure: a non-success HTTP status (carrying the
    /// code), or a response body missing a required element (`None`).
    Transport(Option<u16>),
    /// The backend reported the job FAILED; carries the job identifier when
    /// the response named one.
    Failed(Option<String>),
}

/// What the caller must do next with a job.
pub enum JobAction {
    /// Wait the poll interval, query the status of the job with this
    /// identifier, and hand the response back.
    Poll(String),
    /// Terminal: the job completed with this result.
    Succeed(RunpodResult),
    /// Terminal: the job produced no result.
    Fail(JobError),
}

/// The status a backend status string denotes.
pub open spec fn status_of(s: Seq<char>) -> JobStatus {
    if s == "COMPLETED"@ {
        JobStatus::Completed
    } else if s == "FAILED"@ {
        JobStatus::Failed
    } else if s == "IN_QUEUE"@ {
        JobStatus::Queued
    } else if s == "IN_PROGRESS"@ {
        JobStatus::InProgress
    } else {
        JobStatus::Other
    }
}

/// A job stops being polled exactly in these states.
pub open spec fn is_terminal(st: JobStatus) -> bool {
    st == JobStatus::Completed || st == JobStatus::Failed
}

/// Parses a backend status string, mirroring `status_of`.
pub fn parse_status(s: &String) -> (st: JobStatus)
    ensures
        st == status_of(s@),
{
    if *s == "COMPLETED".to_owned() {
        JobStatus::Completed
    } else if *s == "FAILED".to_owned() {
        JobStatus::Failed
    } else if *s == "IN_QUEUE".to_owned() {
        JobStatus::Queued
    } else if *s == "IN_PROGRESS".to_owned() {
        JobStatus::InProgress
    } else {
        JobStatus::Other
    }
}

/// The decision a response forces: a completed job yields its result (a
/// completed response without one is a malformed body); a failed job is a
/// failure; any other status directs one more poll of the job — when the
/// response names no job to poll, that too is a malformed body.
pub open spec fn job_step_spec(resp: ApiResponse) -> JobAction {
    let st = status_of(resp.status@);
    if st == JobStatus::Completed {
        match resp.output {
            Some(out) => JobAction::Succeed(out),
            None => JobAction::Fail(JobError::Transport(None)),
        }
    } else if st == JobStatus::Failed {
        JobAction::Fail(JobError::Failed(resp.id))
    } else {
        match resp.id {
            Some(id) => JobAction::Poll(id),
            None => JobAction::Fail(JobError::Transport(None)),
        }
    }
}

/// Decides the next step of the submit/poll cycle from one decoded response.
pub fn job_step(resp: ApiResponse) -> (action: JobAction)
    ensures
        action == job_step_spec(resp),
{
    let st = parse_status(&resp.status);
    match st {
        JobStatus::Completed => match resp.output {
            Some(out) => JobAction::Succeed(out),
            None => JobAction::Fail(JobError::Transport(None)),
        },
        JobStatus::Failed => JobAction::Fail(JobError::Failed(resp.id)),
        _ => match resp.id {
            Some(id) => JobAction::Poll(id),
            None => JobAction::Fail(JobError::Transport(None)),
        },
    }
}

/// Terminal-state closure: a step hands control back only on COMPLETED (a
/// result), FAILED (a failure), or a transport-level fault; whenever the
/// reported status is non-terminal and the response names a job, the step
/// directs another poll — polling never stops while the job is queued or in
/// progress.
pub proof fn lemma_job_step_terminal_closure(resp: ApiResponse)
    ensures
        (job_step_spec(resp) is Poll) <==> (!is_terminal(status_of(resp.status@))
            && resp.id is Some),
        (job_step_spec(resp) is Succeed) ==> status_of(resp.status@) == JobStatus::Completed,
        (job_step_spec(resp) matches JobAction::Fail(JobError::Failed(_)))
            ==> status_of(resp.status@) == JobStatus::Failed,
{
}

/// Gatekeeping of an HTTP response before its body is used: 2xx passes,
/// anything else is a transport failure carrying the status code.
pub fn check_http_status(code: u16) -> (r: Result<(), JobError>)
    ensures
        200 <= code < 300 ==> r == Ok::<(), JobError>(()),
        !(200 <= code < 300) ==> r == Err::<(), JobError>(JobError::Transport(Some(code))),
{
    if 200 <= code && code < 300 {
        Ok(())
    } else {
        Err(JobError::Transport(Some(code)))
    }
}

/// Seconds to wait between two status polls of one job.
pub const POLL_INTERVAL_SECS: u64 = 5;

/// The fixed decoding configuration submitted with every job. Fractional
/// thresholds are stored in hundredths so that every value is integral.
pub struct DecodingConfig {
    pub model: String,
    pub transcription: String,
    pub translate: bool,
    pub temperature: u64,
    pub best_of: u64,
    pub beam_size: u64,
    pub patience: u64,
    pub suppress_tokens: String,
    pub condition_on_previous_text: bool,
    pub temperature_increment_on_fallback_centi: u64,
    pub compression_ratio_threshold_centi: u64,
    pub logprob_threshold: i64,
    pub no_speech_threshold_centi: u64,
    pub word_timestamps: bool,
    pub language: String,
    pub enable_vad: bool,
}

impl DecodingConfig {
    /// The deterministic configuration every submission carries: fixed model
    /// variant and target language, word-level timestamps on, voice activity
    /// detection off, deterministic decoding parameters.
    pub fn fixed() -> (c: DecodingConfig)
        ensures
            c.model@ == "large-v3"@,
            c.transcription@ == "plain_text"@,
            !c.translate,
            c.temperature == 0,
            c.best_of == 5,
            c.beam_size == 5,
            c.patience == 1,
            c.suppress_tokens@ == "-1"@,
            !c.condition_on_previous_text,
            c.temperature_increment_on_fallback_centi == 20,
            c.compression_ratio_threshold_centi == 240,
            c.logprob_threshold == -1,
            c.no_speech_threshold_centi == 60,
            c.word_timestamps,
            c.language@ == "pt"@,
            !c.enable_vad,
    {
        DecodingConfig {
            model: "large-v3".to_owned(),
            transcription: "plain_text".to_owned(),
            translate: false,
            temperature: 0,
            best_of: 5,
            beam_size: 5,
            patience: 1,
            suppress_tokens: "-1".to_owned(),
            condition_on_previous_text: false,
            temperature_increment_on_fallback_centi: 20,
            compression_ratio_threshold_centi: 240,
            logprob_threshold: -1,
            no_speech_threshold_centi: 60,
            word_timestamps: true,
            language: "pt".to_owned(),
            enable_vad: false,
        }
    }
}

} // verus!

use transcript_align::align::WordToken;
use transcript_align::job::check_http_status;
use transcript_align::job::job_step;
use transcript_align::job::parse_status;
use transcript_align::job::ApiResponse;
use transcript_align::job::DecodingConfig;
use transcript_align::job::JobAction;
use transcript_align::job::JobError;
use transcript_align::job::JobStatus;
use transcript_align::job::RunpodResult;

fn response(id: Option<&str>, status: &str, output: Option<RunpodResult>) -> ApiResponse {
    ApiResponse { id: id.map(|s| s.to_string()), status: status.to_string(), output }
}

fn result_with_words(n: u64) -> RunpodResult {
    let mut words = Vec::new();
    let mut i: u64 = 0;
    while i < n {
        words.push(WordToken { start: i, end: i + 1, text: format!("w{}", i) });
        i += 1;
    }
    RunpodResult { detected_language: "pt".to_string(), word_timestamps: words }
}

#[test]
fn status_strings_parse() {
    assert_eq!(parse_status(&"COMPLETED".to_string()), JobStatus::Completed);
    assert_eq!(parse_status(&"FAILED".to_string()), JobStatus::Failed);
    assert_eq!(parse_status(&"IN_QUEUE".to_string()), JobStatus::Queued);
    assert_eq!(parse_status(&"IN_PROGRESS".to_string()), JobStatus::InProgress);
    assert_eq!(parse_status(&"SOMETHING_ELSE".to_string()), JobStatus::Other);
    assert_eq!(parse_status(&"completed".to_string()), JobStatus::Other);
}

#[test]
fn completed_job_yields_result() {
    let resp = response(Some("job-1"), "COMPLETED", Some(result_with_words(2)));
    match job_step(resp) {
        JobAction::Succeed(out) => {
            assert_eq!(out.detected_language, "pt");
            assert_eq!(out.word_timestamps.len(), 2);
            assert_eq!(out.word_timestamps[0].text, "w0");
        }
        _ => panic!("expected success"),
    }
}

#[test]
fn completed_without_output_is_transport_error() {
    let resp = response(Some("job-1"), "COMPLETED", None);
    match job_step(resp) {
        JobAction::Fail(JobError::Transport(code)) => assert_eq!(code, None),
        _ => panic!("expected transport failure"),
    }
}

#[test]
fn failed_job_reports_failure_with_id() {
    let resp = response(Some("job-9"), "FAILED", None);
    match job_step(resp) {
        JobAction::Fail(JobError::Failed(id)) => assert_eq!(id, Some("job-9".to_string())),
        _ => panic!("expected failure"),
    }
}

#[test]
fn pending_job_is_polled_again() {
    for status in ["IN_QUEUE", "IN_PROGRESS", "WARMING_UP"] {
        let resp = response(Some("job-2"), status, None);
        match job_step(resp) {
            JobAction::Poll(id) => assert_eq!(id, "job-2"),
            _ => panic!("expected another poll"),
        }
    }
}

#[test]
fn pending_job_without_id_is_transport_error() {
    let resp = response(None, "IN_QUEUE", None);
    match job_step(resp) {
        JobAction::Fail(JobError::Transport(code)) => assert_eq!(code, None),
        _ => panic!("expected transport failure"),
    }
}

#[test]
fn http_status_gate() {
    assert!(check_http_status(200).is_ok());
    assert!(check_http_status(299).is_ok());
    match check_http_status(404) {
        Err(JobError::Transport(code)) => assert_eq!(code, Some(404)),
        _ => panic!("expected transport failure"),
    }
    match check_http_status(500) {
        Err(JobError::Transport(code)) => assert_eq!(code, Some(500)),
        _ => panic!("expected transport failure"),
    }
}

#[test]
fn fixed_decoding_configuration() {
    let c = DecodingConfig::fixed();
    assert_eq!(c.model, "large-v3");
    assert_eq!(c.transcription, "plain_text");
    assert!(!c.translate);
    assert_eq!(c.temperature, 0);
    assert_eq!(c.best_of, 5);
    assert_eq!(c.beam_size, 5);
    assert_eq!(c.patience, 1);
    assert_eq!(c.suppress_tokens, "-1");
    assert!(!c.condition_on_previous_text);
    assert_eq!(c.temperature_increment_on_fallback_centi, 20);
    assert_eq!(c.compression_ratio_threshold_centi, 240);
    assert_eq!(c.logprob_threshold, -1);
    assert_eq!(c.no_speech_threshold_centi, 60);
    assert!(c.word_timestamps);
    assert_eq!(c.language, "pt");
    assert!(!c.enable_vad);
    assert_eq!(transcript_align::job::POLL_INTERVAL_SECS, 5);
}

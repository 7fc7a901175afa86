use soundblast::errors::TranscribeError;
use soundblast::pipeline::{init, step, PipelineAction, PipelineEvent, PipelineState, ToolOutcome};
use soundblast::tooljson::render_transcript;
use soundblast::transcript::WhisperResult;

const ID: &str = "0123456789abcdef01234567";

fn sample_json() -> Vec<u8> {
    let s = "{\"text\":\"hello world\",\"segments\":[{\"id\":0,\"seek\":0,\"start\":0.0,\"end\":2.5,\"text\":\"hello world\",\"tokens\":[50364,1768],\"confidence\":0.98,\"words\":[{\"start\":0.0,\"end\":1.0,\"text\":\"hello\",\"confidence\":0.99},{\"start\":1.2,\"end\":2.5,\"text\":\"world\",\"confidence\":0.97}]}]}";
    s.as_bytes().to_vec()
}

/// Drives one full cache-missing run to completion and returns the final
/// state, the stored transcript, and every action the machine asked for.
fn run_fresh(output: Result<Vec<u8>, String>) -> (PipelineState, Option<WhisperResult>, Vec<&'static str>) {
    let mut log: Vec<&'static str> = Vec::new();
    let mut stored: Option<WhisperResult> = None;
    let mut record = |acts: &Vec<PipelineAction>, stored: &mut Option<WhisperResult>| {
        for a in acts {
            log.push(match a {
                PipelineAction::LookupFile { .. } => "lookup",
                PipelineAction::FindTranscript { .. } => "find",
                PipelineAction::FetchBlob { .. } => "fetch",
                PipelineAction::RunNormalize { .. } => "normalize",
                PipelineAction::RunRecognize { .. } => "recognize",
                PipelineAction::RemoveFetched { .. } => "rm_fetched",
                PipelineAction::RemoveWav { .. } => "rm_wav",
                PipelineAction::RemoveResult { .. } => "rm_result",
                PipelineAction::ReadResult { .. } => "read",
                PipelineAction::StoreTranscript { transcript } => {
                    *stored = Some(transcript.duplicate());
                    "store"
                }
            });
        }
    };
    let (state, acts) = init(ID.to_string());
    record(&acts, &mut stored);
    let (state, acts) = step(state, PipelineEvent::Resolved { result: Ok(Some(ID.to_string())) });
    record(&acts, &mut stored);
    let (state, acts) = step(state, PipelineEvent::CacheChecked { result: Ok(None) });
    record(&acts, &mut stored);
    let (state, acts) = step(state, PipelineEvent::Fetched { result: Ok(()) });
    record(&acts, &mut stored);
    let (state, acts) = step(
        state,
        PipelineEvent::Normalized {
            result: Ok(ToolOutcome { success: true, stderr: String::new() }),
        },
    );
    record(&acts, &mut stored);
    let (state, acts) = step(state, PipelineEvent::Recognized { result: Ok(true) });
    record(&acts, &mut stored);
    let (mut state, acts) = step(state, PipelineEvent::OutputRead { result: output });
    record(&acts, &mut stored);
    if !state.is_terminal() {
        let (s2, acts) = step(state, PipelineEvent::Persisted { result: Ok("1".to_string()) });
        record(&acts, &mut stored);
        state = s2;
    }
    (state, stored, log)
}

#[test]
fn full_run_returns_and_persists_the_same_transcript() {
    let (state, stored, log) = run_fresh(Ok(sample_json()));
    let done = match state {
        PipelineState::Done { transcript } => transcript,
        other => panic!("expected success, got {:?}", other),
    };
    assert_eq!(done.file_id.as_deref(), Some(ID));
    assert!(!done.text.is_empty());
    assert!(done.segments.len() >= 1);
    let stored = stored.expect("a fresh run persists its transcript");
    assert_eq!(render_transcript(&stored), render_transcript(&done));
    assert_eq!(stored.file_id, done.file_id);
    assert_eq!(
        log,
        vec![
            "lookup", "find", "fetch", "normalize", "rm_fetched", "recognize", "rm_wav",
            "read", "rm_result", "store",
        ]
    );
}

#[test]
fn cache_hit_returns_stored_transcript_without_tools() {
    let cached = soundblast::tooljson::parse_transcript(&sample_json())
        .unwrap()
        .with_file_id(ID.to_string());
    let cached_bytes = render_transcript(&cached);
    let (state, acts) = init(ID.to_string());
    assert_eq!(acts.len(), 1);
    let (state, acts) = step(state, PipelineEvent::Resolved { result: Ok(Some(ID.to_string())) });
    assert!(matches!(acts[0], PipelineAction::FindTranscript { .. }));
    let (state, acts) = step(state, PipelineEvent::CacheChecked { result: Ok(Some(cached)) });
    assert!(acts.is_empty(), "a cache hit asks for nothing more");
    match state {
        PipelineState::Done { transcript } => {
            assert_eq!(render_transcript(&transcript), cached_bytes);
            assert_eq!(transcript.file_id.as_deref(), Some(ID));
        },
        other => panic!("expected cached success, got {:?}", other),
    }
}

#[test]
fn malformed_identifier_is_rejected_before_any_lookup() {
    let (state, acts) = init("not-a-valid-handle".to_string());
    assert!(acts.is_empty());
    assert!(matches!(
        state,
        PipelineState::Failed { error: TranscribeError::InvalidIdentifier }
    ));
}

#[test]
fn unknown_identifier_fails_with_not_found() {
    let (state, _) = init(ID.to_string());
    let (state, acts) = step(state, PipelineEvent::Resolved { result: Ok(None) });
    assert!(acts.is_empty());
    assert!(matches!(state, PipelineState::Failed { error: TranscribeError::NotFound }));
}

#[test]
fn resolve_backend_failure_is_a_storage_error() {
    let (state, _) = init(ID.to_string());
    let (state, _) = step(
        state,
        PipelineEvent::Resolved { result: Err("connection reset".to_string()) },
    );
    match state {
        PipelineState::Failed { error: TranscribeError::StorageError(m) } => {
            assert_eq!(m, "connection reset");
        },
        other => panic!("expected storage error, got {:?}", other),
    }
}

#[test]
fn failed_cache_probe_is_fatal() {
    let (state, _) = init(ID.to_string());
    let (state, _) = step(state, PipelineEvent::Resolved { result: Ok(Some(ID.to_string())) });
    let (state, acts) = step(
        state,
        PipelineEvent::CacheChecked { result: Err("probe timed out".to_string()) },
    );
    assert!(acts.is_empty(), "an unanswered probe must not lead to a write");
    match state {
        PipelineState::Failed { error: TranscribeError::StorageError(m) } => {
            assert_eq!(m, "probe timed out");
        },
        other => panic!("expected storage error, got {:?}", other),
    }
}

#[test]
fn fetch_failure_is_fatal_and_cleans_up() {
    let (state, _) = init(ID.to_string());
    let (state, _) = step(state, PipelineEvent::Resolved { result: Ok(Some(ID.to_string())) });
    let (state, _) = step(state, PipelineEvent::CacheChecked { result: Ok(None) });
    let (state, acts) = step(state, PipelineEvent::Fetched { result: Err("io".to_string()) });
    assert!(matches!(acts[0], PipelineAction::RemoveFetched { .. }));
    assert!(matches!(state, PipelineState::Failed { error: TranscribeError::StorageError(_) }));
}

#[test]
fn normalization_failure_carries_diagnostics_and_persists_nothing() {
    let (state, _) = init(ID.to_string());
    let (state, _) = step(state, PipelineEvent::Resolved { result: Ok(Some(ID.to_string())) });
    let (state, _) = step(state, PipelineEvent::CacheChecked { result: Ok(None) });
    let (state, _) = step(state, PipelineEvent::Fetched { result: Ok(()) });
    let (state, acts) = step(
        state,
        PipelineEvent::Normalized {
            result: Ok(ToolOutcome { success: false, stderr: "bad header".to_string() }),
        },
    );
    assert_eq!(acts.len(), 2);
    assert!(matches!(acts[0], PipelineAction::RemoveFetched { .. }));
    assert!(matches!(acts[1], PipelineAction::RemoveWav { .. }));
    match state {
        PipelineState::Failed { error: TranscribeError::ToolFailure(d) } => {
            assert_eq!(d, "bad header");
        },
        other => panic!("expected tool failure, got {:?}", other),
    }
}

#[test]
fn spawn_failure_is_distinguished_from_tool_failure() {
    let (state, _) = init(ID.to_string());
    let (state, _) = step(state, PipelineEvent::Resolved { result: Ok(Some(ID.to_string())) });
    let (state, _) = step(state, PipelineEvent::CacheChecked { result: Ok(None) });
    let (state, _) = step(state, PipelineEvent::Fetched { result: Ok(()) });
    let (state, acts) = step(
        state,
        PipelineEvent::Normalized { result: Err("program not found".to_string()) },
    );
    assert!(matches!(acts[0], PipelineAction::RemoveFetched { .. }));
    assert!(matches!(acts[1], PipelineAction::RemoveWav { .. }));
    assert!(matches!(
        state,
        PipelineState::Failed { error: TranscribeError::ProcessSpawnError(_) }
    ));
}

#[test]
fn recognition_failure_removes_normalized_audio() {
    let (state, _) = init(ID.to_string());
    let (state, _) = step(state, PipelineEvent::Resolved { result: Ok(Some(ID.to_string())) });
    let (state, _) = step(state, PipelineEvent::CacheChecked { result: Ok(None) });
    let (state, _) = step(state, PipelineEvent::Fetched { result: Ok(()) });
    let (state, _) = step(
        state,
        PipelineEvent::Normalized {
            result: Ok(ToolOutcome { success: true, stderr: String::new() }),
        },
    );
    let (state, acts) = step(state, PipelineEvent::Recognized { result: Ok(false) });
    assert_eq!(acts.len(), 2);
    assert!(matches!(acts[0], PipelineAction::RemoveWav { .. }));
    assert!(matches!(acts[1], PipelineAction::RemoveResult { .. }));
    assert!(matches!(state, PipelineState::Failed { error: TranscribeError::ToolFailure(_) }));
}

#[test]
fn malformed_tool_output_fails_after_cleanup() {
    let (state, stored, log) = run_fresh(Ok(b"{\"oops\":true}".to_vec()));
    assert!(stored.is_none(), "nothing is persisted for malformed output");
    assert!(matches!(
        state,
        PipelineState::Failed { error: TranscribeError::MalformedToolOutput(_) }
    ));
    assert!(log.contains(&"rm_result"));
    assert!(log.contains(&"rm_fetched"));
    assert!(log.contains(&"rm_wav"));
}

#[test]
fn missing_result_file_is_malformed_output() {
    let (state, stored, _) = run_fresh(Err("no such file".to_string()));
    assert!(stored.is_none());
    match state {
        PipelineState::Failed { error: TranscribeError::MalformedToolOutput(m) } => {
            assert_eq!(m, "no such file");
        },
        other => panic!("expected malformed output, got {:?}", other),
    }
}

#[test]
fn persist_failure_leaves_no_cached_transcript() {
    let (state, _) = init(ID.to_string());
    let (state, _) = step(state, PipelineEvent::Resolved { result: Ok(Some(ID.to_string())) });
    let (state, _) = step(state, PipelineEvent::CacheChecked { result: Ok(None) });
    let (state, _) = step(state, PipelineEvent::Fetched { result: Ok(()) });
    let (state, _) = step(
        state,
        PipelineEvent::Normalized {
            result: Ok(ToolOutcome { success: true, stderr: String::new() }),
        },
    );
    let (state, _) = step(state, PipelineEvent::Recognized { result: Ok(true) });
    let (state, _) = step(state, PipelineEvent::OutputRead { result: Ok(sample_json()) });
    let (state, acts) = step(
        state,
        PipelineEvent::Persisted { result: Err("write refused".to_string()) },
    );
    assert!(acts.is_empty());
    assert!(matches!(state, PipelineState::Failed { error: TranscribeError::StorageError(_) }));
}

#[test]
fn every_scratch_file_created_is_removed_on_success() {
    let (_, _, log) = run_fresh(Ok(sample_json()));
    let creates = ["fetch", "normalize", "recognize"];
    let removes = ["rm_fetched", "rm_wav", "rm_result"];
    for (c, r) in creates.iter().zip(removes.iter()) {
        let ci = log.iter().position(|x| x == c).expect("creating action present");
        let ri = log.iter().position(|x| x == r).expect("matching remove present");

        assert!(ri > ci, "{} must come after {}", r, c);
    }
}

#[test]
fn transcribing_twice_yields_identical_bytes_and_no_second_tool_run() {
    // First request: full pipeline.
    let (state, stored, _) = run_fresh(Ok(sample_json()));
    let first = match state {
        PipelineState::Done { transcript } => transcript,
        other => panic!("expected success, got {:?}", other),
    };
    let stored = stored.expect("first run persists");
    // Second request: the store now answers the cache probe with what the
    // first run persisted.
    let (state, _) = init(ID.to_string());
    let (state, _) = step(state, PipelineEvent::Resolved { result: Ok(Some(ID.to_string())) });
    let (state, acts) = step(state, PipelineEvent::CacheChecked { result: Ok(Some(stored)) });
    assert!(acts.is_empty(), "no tool is invoked on the second call");
    let second = match state {
        PipelineState::Done { transcript } => transcript,
        other => panic!("expected cached success, got {:?}", other),
    };
    assert_eq!(render_transcript(&second), render_transcript(&first));
    assert_eq!(second.file_id, first.file_id);
}

#[test]
fn terminal_state_ignores_late_events() {
    let (state, _) = init(ID.to_string());
    let (state, acts) = step(state, PipelineEvent::Resolved { result: Ok(None) });
    assert!(acts.is_empty());
    let (state, acts) = step(state, PipelineEvent::Recognized { result: Ok(true) });
    assert!(acts.is_empty());
    assert!(state.is_terminal());
}

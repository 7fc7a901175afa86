use vstd::prelude::*;
use crate::errors::{ErrorV, TranscribeError};
use crate::ident::{is_well_formed_id, validate_id};
use crate::tooljson::{parse_transcript, spec_parse_transcript};
use crate::transcript::{TranscriptV, WhisperResult};

verus! {

// The transcription pipeline, written as an explicit state machine. The
// library decides; a thin driver performs each emitted action against the
// blob store, the transcript store, the local disk and the external tools,
// and reports what happened as the next event. One run is strictly
// sequential: resolve, cache check, fetch, normalize, recognize, read and
// parse, persist. Every fatal condition is terminal; nothing is retried.
//
// Scratch files are named deterministically from the file identifier (see
// the path functions): the fetched blob, the normalized `.wav` beside it,
// and the tool's result file. The machine emits a remove action for every
// scratch file its run has created, on success and on failure alike.

/// The result of a captured external tool run: whether it exited zero, and
/// its captured diagnostic stream.
#[derive(Debug, Clone)]
pub struct ToolOutcome {
    pub success: bool,
    pub stderr: String,
}

/// Where one pipeline run stands, between two events.
#[derive(Debug)]
pub enum PipelineState {
    /// The blob store is being asked for the file.
    AwaitResolve { id: String },
    /// The transcript store is being asked for a prior transcript.
    AwaitCache { file_id: String },
    /// The blob is being streamed to its scratch path.
    AwaitFetch { file_id: String },
    /// The normalization tool is running on the fetched blob.
    AwaitNormalize { file_id: String },
    /// The recognition tool is running on the normalized audio.
    AwaitRecognize { file_id: String },
    /// The tool's result file is being read.
    AwaitRead { file_id: String },
    /// The parsed transcript is being written to the transcript store.
    AwaitPersist { transcript: WhisperResult },
    /// The run succeeded with this transcript.
    Done { transcript: WhisperResult },
    /// The run failed; nothing was persisted by it after the failure.
    Failed { error: TranscribeError },
}

/// What the driver reports back after performing the pending action.
#[derive(Debug)]
pub enum PipelineEvent {
    /// The blob store answered the lookup: the found file's identifier,
    /// absence, or a backend error.
    Resolved { result: Result<Option<String>, String> },
    /// The transcript store answered the cache probe.
    CacheChecked { result: Result<Option<WhisperResult>, String> },
    /// The blob finished streaming to the scratch path, or failed to.
    Fetched { result: Result<(), String> },
    /// The normalization tool ran (with captured diagnostics), or could not
    /// be launched.
    Normalized { result: Result<ToolOutcome, String> },
    /// The recognition tool ran (streams inherited, so nothing is
    /// captured), or could not be launched.
    Recognized { result: Result<bool, String> },
    /// The tool's result file was read, or could not be.
    OutputRead { result: Result<Vec<u8>, String> },
    /// The transcript store accepted the new record (with its storage id),
    /// or failed.
    Persisted { result: Result<String, String> },
}

/// What the driver must do next.
#[derive(Debug)]
pub enum PipelineAction {
    /// Ask the blob store for the file with this identifier.
    LookupFile { id: String },
    /// Ask the transcript store for a transcript keyed by this file.
    FindTranscript { file_id: String },
    /// Stream the blob to its fetch scratch path.
    FetchBlob { file_id: String },
    /// Run the normalization tool from the fetch path to the `.wav` path,
    /// capturing its diagnostics.
    RunNormalize { file_id: String },
    /// Run the recognition tool on the `.wav`, streams inherited, writing
    /// the result file into the working directory.
    RunRecognize { file_id: String },
    /// Delete the fetched scratch file.
    RemoveFetched { file_id: String },
    /// Delete the normalized `.wav` scratch file.
    RemoveWav { file_id: String },
    /// Delete the tool's result file.
    RemoveResult { file_id: String },
    /// Read the tool's result file.
    ReadResult { file_id: String },
    /// Insert this transcript into the transcript store.
    StoreTranscript { transcript: WhisperResult },
}

/// Spec-level mirror of `ToolOutcome`.
pub struct ToolOutcomeV {
    pub success: bool,
    pub stderr: Seq<char>,
}

/// Spec-level mirror of `PipelineState`.
pub enum StateV {
    AwaitResolve { id: Seq<char> },
    AwaitCache { file_id: Seq<char> },
    AwaitFetch { file_id: Seq<char> },
    AwaitNormalize { file_id: Seq<char> },
    AwaitRecognize { file_id: Seq<char> },
    AwaitRead { file_id: Seq<char> },
    AwaitPersist { transcript: TranscriptV },
    Done { transcript: TranscriptV },
    Failed { error: ErrorV },
}

/// Spec-level mirror of `PipelineEvent`.
pub enum EventV {
    Resolved { result: Result<Option<Seq<char>>, Seq<char>> },
    CacheChecked { result: Result<Option<TranscriptV>, Seq<char>> },
    Fetched { result: Result<(), Seq<char>> },
    Normalized { result: Result<ToolOutcomeV, Seq<char>> },
    Recognized { result: Result<bool, Seq<char>> },
    OutputRead { result: Result<Seq<u8>, Seq<char>> },
    Persisted { result: Result<Seq<char>, Seq<char>> },
}

/// Spec-level mirror of `PipelineAction`.
pub enum ActionV {
    LookupFile { id: Seq<char> },
    FindTranscript { file_id: Seq<char> },
    FetchBlob { file_id: Seq<char> },
    RunNormalize { file_id: Seq<char> },
    RunRecognize { file_id: Seq<char> },
    RemoveFetched { file_id: Seq<char> },
    RemoveWav { file_id: Seq<char> },
    RemoveResult { file_id: Seq<char> },
    ReadResult { file_id: Seq<char> },
    StoreTranscript { transcript: TranscriptV },
}

impl View for ToolOutcome {
    type V = ToolOutcomeV;

    open spec fn view(&self) -> ToolOutcomeV {
        ToolOutcomeV { success: self.success, stderr: self.stderr@ }
    }
}

impl View for PipelineState {
    type V = StateV;

    open spec fn view(&self) -> StateV {
        match self {
            PipelineState::AwaitResolve { id } => StateV::AwaitResolve { id: id@ },
            PipelineState::AwaitCache { file_id } => StateV::AwaitCache { file_id: file_id@ },
            PipelineState::AwaitFetch { file_id } => StateV::AwaitFetch { file_id: file_id@ },
            PipelineState::AwaitNormalize { file_id } => StateV::AwaitNormalize {
                file_id: file_id@,
            },
            PipelineState::AwaitRecognize { file_id } => StateV::AwaitRecognize {
                file_id: file_id@,
            },
            PipelineState::AwaitRead { file_id } => StateV::AwaitRead { file_id: file_id@ },
            PipelineState::AwaitPersist { transcript } => StateV::AwaitPersist {
                transcript: transcript@,
            },
            PipelineState::Done { transcript } => StateV::Done { transcript: transcript@ },
            PipelineState::Failed { error } => StateV::Failed { error: error@ },
        }
    }
}

impl View for PipelineEvent {
    type V = EventV;

    open spec fn view(&self) -> EventV {
        match self {
            PipelineEvent::Resolved { result } => EventV::Resolved {
                result: match result {
                    Ok(Some(id)) => Ok(Some(id@)),
                    Ok(None) => Ok(None),
                    Err(m) => Err(m@),
                },
            },
            PipelineEvent::CacheChecked { result } => EventV::CacheChecked {
                result: match result {
                    Ok(Some(t)) => Ok(Some(t@)),
                    Ok(None) => Ok(None),
                    Err(m) => Err(m@),
                },
            },
            PipelineEvent::Fetched { result } => EventV::Fetched {
                result: match result {
                    Ok(u) => Ok(*u),
                    Err(m) => Err(m@),
                },
            },
            PipelineEvent::Normalized { result } => EventV::Normalized {
                result: match result {
                    Ok(o) => Ok(o@),
                    Err(m) => Err(m@),
                },
            },
            PipelineEvent::Recognized { result } => EventV::Recognized {
                result: match result {
                    Ok(b) => Ok(*b),
                    Err(m) => Err(m@),
                },
            },
            PipelineEvent::OutputRead { result } => EventV::OutputRead {
                result: match result {
                    Ok(b) => Ok(b@),
                    Err(m) => Err(m@),
                },
            },
            PipelineEvent::Persisted { result } => EventV::Persisted {
                result: match result {
                    Ok(id) => Ok(id@),
                    Err(m) => Err(m@),
                },
            },
        }
    }
}

impl View for PipelineAction {
    type V = ActionV;

    open spec fn view(&self) -> ActionV {
        match self {
            PipelineAction::LookupFile { id } => ActionV::LookupFile { id: id@ },
            PipelineAction::FindTranscript { file_id } => ActionV::FindTranscript {
                file_id: file_id@,
            },
            PipelineAction::FetchBlob { file_id } => ActionV::FetchBlob { file_id: file_id@ },
            PipelineAction::RunNormalize { file_id } => ActionV::RunNormalize {
                file_id: file_id@,
            },
            PipelineAction::RunRecognize { file_id } => ActionV::RunRecognize {
                file_id: file_id@,
            },
            PipelineAction::RemoveFetched { file_id } => ActionV::RemoveFetched {
                file_id: file_id@,
            },
            PipelineAction::RemoveWav { file_id } => ActionV::RemoveWav { file_id: file_id@ },
            PipelineAction::RemoveResult { file_id } => ActionV::RemoveResult {
                file_id: file_id@,
            },
            PipelineAction::ReadResult { file_id } => ActionV::ReadResult { file_id: file_id@ },
            PipelineAction::StoreTranscript { transcript } => ActionV::StoreTranscript {
                transcript: transcript@,
            },
        }
    }
}

/// The model of a sequence of actions.
pub open spec fn actions_view(s: Seq<PipelineAction>) -> Seq<ActionV> {
    s.map_values(|a: PipelineAction| a@)
}

/// How a run begins: a malformed identifier is rejected at once, before any
/// backend is asked; a well-formed one is looked up in the blob store.
pub open spec fn spec_init(id: Seq<char>) -> (StateV, Seq<ActionV>) {
    if is_well_formed_id(id) {
        (StateV::AwaitResolve { id }, seq![ActionV::LookupFile { id }])
    } else {
        (StateV::Failed { error: ErrorV::InvalidIdentifier }, Seq::empty())
    }
}

/// How a run advances on one event. In every state exactly one event kind
/// is expected; any other reported event leaves the state unchanged and
/// asks for nothing.
pub open spec fn spec_step(s: StateV, e: EventV) -> (StateV, Seq<ActionV>) {
    match (s, e) {
        (StateV::AwaitResolve { id }, EventV::Resolved { result }) => match result {
            Ok(Some(file_id)) => (
                StateV::AwaitCache { file_id },
                seq![ActionV::FindTranscript { file_id }],
            ),
            Ok(None) => (StateV::Failed { error: ErrorV::NotFound }, Seq::empty()),
            Err(m) => (StateV::Failed { error: ErrorV::StorageError(m) }, Seq::empty()),
        },
        (StateV::AwaitCache { file_id }, EventV::CacheChecked { result }) => match result {
            Ok(Some(t)) => (StateV::Done { transcript: t }, Seq::empty()),
            Ok(None) => (
                StateV::AwaitFetch { file_id },
                seq![ActionV::FetchBlob { file_id }],
            ),
            // Without an answer from the store the check-before-write
            // discipline cannot be kept, so a failed probe ends the run.
            Err(m) => (StateV::Failed { error: ErrorV::StorageError(m) }, Seq::empty()),
        },
        (StateV::AwaitFetch { file_id }, EventV::Fetched { result }) => match result {
            Ok(u) => (
                StateV::AwaitNormalize { file_id },
                seq![ActionV::RunNormalize { file_id }],
            ),
            // Even a failed fetch may have left a partial scratch file.
            Err(m) => (
                StateV::Failed { error: ErrorV::StorageError(m) },
                seq![ActionV::RemoveFetched { file_id }],
            ),
        },
        (StateV::AwaitNormalize { file_id }, EventV::Normalized { result }) => match result {
            // The fetched original is deleted whatever the tool did.
            Ok(o) => if o.success {
                (
                    StateV::AwaitRecognize { file_id },
                    seq![
                        ActionV::RemoveFetched { file_id },
                        ActionV::RunRecognize { file_id },
                    ],
                )
            } else {
                // The tool may have created a partial output before failing.
                (
                    StateV::Failed { error: ErrorV::ToolFailure(o.stderr) },
                    seq![ActionV::RemoveFetched { file_id }, ActionV::RemoveWav { file_id }],
                )
            },
            Err(m) => (
                StateV::Failed { error: ErrorV::ProcessSpawnError(m) },
                seq![ActionV::RemoveFetched { file_id }, ActionV::RemoveWav { file_id }],
            ),
        },
        (StateV::AwaitRecognize { file_id }, EventV::Recognized { result }) => match result {
            // The normalized audio is deleted whatever the tool did. The
            // tool's streams were inherited, so a failure carries no
            // captured diagnostics.
            Ok(success) => if success {
                (
                    StateV::AwaitRead { file_id },
                    seq![ActionV::RemoveWav { file_id }, ActionV::ReadResult { file_id }],
                )
            } else {
                // The tool may have created a partial result file.
                (
                    StateV::Failed { error: ErrorV::ToolFailure(Seq::empty()) },
                    seq![ActionV::RemoveWav { file_id }, ActionV::RemoveResult { file_id }],
                )
            },
            Err(m) => (
                StateV::Failed { error: ErrorV::ProcessSpawnError(m) },
                seq![ActionV::RemoveWav { file_id }, ActionV::RemoveResult { file_id }],
            ),
        },
        (StateV::AwaitRead { file_id }, EventV::OutputRead { result }) => match result {
            // The result file is deleted whether or not it parses.
            Ok(bytes) => match spec_parse_transcript(bytes) {
                Some(t) => (
                    StateV::AwaitPersist {
                        transcript: TranscriptV {
                            file_id: Some(file_id),
                            text: t.text,
                            segments: t.segments,
                        },
                    },
                    seq![
                        ActionV::RemoveResult { file_id },
                        ActionV::StoreTranscript {
                            transcript: TranscriptV {
                                file_id: Some(file_id),
                                text: t.text,
                                segments: t.segments,
                            },
                        },
                    ],
                ),
                None => (
                    StateV::Failed {
                        error: ErrorV::MalformedToolOutput("unexpected transcript shape"@),
                    },
                    seq![ActionV::RemoveResult { file_id }],
                ),
            },
            // A result file that is missing or unreadable is malformed
            // output, not a storage fault.
            Err(m) => (
                StateV::Failed { error: ErrorV::MalformedToolOutput(m) },
                seq![ActionV::RemoveResult { file_id }],
            ),
        },
        (StateV::AwaitPersist { transcript }, EventV::Persisted { result }) => match result {
            Ok(storage_id) => (StateV::Done { transcript }, Seq::empty()),
            // The transcript is not cached; a later run redoes the work.
            Err(m) => (StateV::Failed { error: ErrorV::StorageError(m) }, Seq::empty()),
        },
        (other, e2) => (other, Seq::empty()),
    }
}

/// Begins a run for a candidate identifier, exactly as `spec_init` says.
pub fn init(id: String) -> (r: (PipelineState, Vec<PipelineAction>))
    ensures
        (r.0@, actions_view(r.1@)) == spec_init(id@),
{
    if validate_id(id.as_str()) {
        let id2 = id.clone();
        let mut acts: Vec<PipelineAction> = Vec::new();
        acts.push(PipelineAction::LookupFile { id });
        proof {
            assert(actions_view(acts@) =~= seq![ActionV::LookupFile { id: id2@ }]);
        }
        (PipelineState::AwaitResolve { id: id2 }, acts)
    } else {
        let acts: Vec<PipelineAction> = Vec::new();
        proof {
            assert(actions_view(acts@) =~= Seq::<ActionV>::empty());
        }
        (PipelineState::Failed { error: TranscribeError::InvalidIdentifier }, acts)
    }
}

/// Advances a run by one event, exactly as `spec_step` says.
pub fn step(state: PipelineState, event: PipelineEvent) -> (r: (
    PipelineState,
    Vec<PipelineAction>,
))
    ensures
        (r.0@, actions_view(r.1@)) == spec_step(state@, event@),
{
    let ghost sv = state@;
    let ghost ev = event@;
    match (state, event) {
        (PipelineState::AwaitResolve { id }, PipelineEvent::Resolved { result }) => match result {
            Ok(Some(file_id)) => {
                let fid2 = file_id.clone();
                let mut acts: Vec<PipelineAction> = Vec::new();
                acts.push(PipelineAction::FindTranscript { file_id });
                proof {
                    assert(actions_view(acts@) =~= seq![
                        ActionV::FindTranscript { file_id: fid2@ },
                    ]);
                }
                (PipelineState::AwaitCache { file_id: fid2 }, acts)
            },
            Ok(None) => (
                PipelineState::Failed { error: TranscribeError::NotFound },
                no_actions(),
            ),
            Err(m) => (
                PipelineState::Failed { error: TranscribeError::StorageError(m) },
                no_actions(),
            ),
        },
        (PipelineState::AwaitCache { file_id }, PipelineEvent::CacheChecked { result }) => match result {
            Ok(Some(t)) => (PipelineState::Done { transcript: t }, no_actions()),
            Ok(None) => {
                let fid2 = file_id.clone();
                let mut acts: Vec<PipelineAction> = Vec::new();
                acts.push(PipelineAction::FetchBlob { file_id });
                proof {
                    assert(actions_view(acts@) =~= seq![ActionV::FetchBlob { file_id: fid2@ }]);
                }
                (PipelineState::AwaitFetch { file_id: fid2 }, acts)
            },
            Err(m) => (
                PipelineState::Failed { error: TranscribeError::StorageError(m) },
                no_actions(),
            ),
        },
        (PipelineState::AwaitFetch { file_id }, PipelineEvent::Fetched { result }) => match result {
            Ok(u) => {
                let fid2 = file_id.clone();
                let mut acts: Vec<PipelineAction> = Vec::new();
                acts.push(PipelineAction::RunNormalize { file_id });
                proof {
                    assert(actions_view(acts@) =~= seq![
                        ActionV::RunNormalize { file_id: fid2@ },
                    ]);
                }
                (PipelineState::AwaitNormalize { file_id: fid2 }, acts)
            },
            Err(m) => {
                let mut acts: Vec<PipelineAction> = Vec::new();
                let ghost fidv = file_id@;
                acts.push(PipelineAction::RemoveFetched { file_id });
                proof {
                    assert(actions_view(acts@) =~= seq![ActionV::RemoveFetched { file_id: fidv }]);
                }
                (PipelineState::Failed { error: TranscribeError::StorageError(m) }, acts)
            },
        },
        (PipelineState::AwaitNormalize { file_id }, PipelineEvent::Normalized { result }) => match result {
            Ok(o) => {
                if o.success {
                    let fid2 = file_id.clone();
                    let fid3 = file_id.clone();
                    let mut acts: Vec<PipelineAction> = Vec::new();
                    acts.push(PipelineAction::RemoveFetched { file_id });
                    acts.push(PipelineAction::RunRecognize { file_id: fid2 });
                    proof {
                        assert(actions_view(acts@) =~= seq![
                            ActionV::RemoveFetched { file_id: fid3@ },
                            ActionV::RunRecognize { file_id: fid3@ },
                        ]);
                    }
                    (PipelineState::AwaitRecognize { file_id: fid3 }, acts)
                } else {
                    let fid2 = file_id.clone();
                    let ghost fidv = file_id@;
                    let mut acts: Vec<PipelineAction> = Vec::new();
                    acts.push(PipelineAction::RemoveFetched { file_id });
                    acts.push(PipelineAction::RemoveWav { file_id: fid2 });
                    proof {
                        assert(actions_view(acts@) =~= seq![
                            ActionV::RemoveFetched { file_id: fidv },
                            ActionV::RemoveWav { file_id: fidv },
                        ]);
                    }
                    (
                        PipelineState::Failed { error: TranscribeError::ToolFailure(o.stderr) },
                        acts,
                    )
                }
            },
            Err(m) => {
                let fid2 = file_id.clone();
                let ghost fidv = file_id@;
                let mut acts: Vec<PipelineAction> = Vec::new();
                acts.push(PipelineAction::RemoveFetched { file_id });
                acts.push(PipelineAction::RemoveWav { file_id: fid2 });
                proof {
                    assert(actions_view(acts@) =~= seq![
                        ActionV::RemoveFetched { file_id: fidv },
                        ActionV::RemoveWav { file_id: fidv },
                    ]);
                }
                (PipelineState::Failed { error: TranscribeError::ProcessSpawnError(m) }, acts)
            },
        },
        (PipelineState::AwaitRecognize { file_id }, PipelineEvent::Recognized { result }) => match result {
            Ok(success) => {
                if success {
                    let fid2 = file_id.clone();
                    let fid3 = file_id.clone();
                    let mut acts: Vec<PipelineAction> = Vec::new();
                    acts.push(PipelineAction::RemoveWav { file_id });
                    acts.push(PipelineAction::ReadResult { file_id: fid2 });
                    proof {
                        assert(actions_view(acts@) =~= seq![
                            ActionV::RemoveWav { file_id: fid3@ },
                            ActionV::ReadResult { file_id: fid3@ },
                        ]);
                    }
                    (PipelineState::AwaitRead { file_id: fid3 }, acts)
                } else {
                    let fid2 = file_id.clone();
                    let ghost fidv = file_id@;
                    let mut acts: Vec<PipelineAction> = Vec::new();
                    acts.push(PipelineAction::RemoveWav { file_id });
                    acts.push(PipelineAction::RemoveResult { file_id: fid2 });
                    proof {
                        assert(actions_view(acts@) =~= seq![
                            ActionV::RemoveWav { file_id: fidv },
                            ActionV::RemoveResult { file_id: fidv },
                        ]);
                    }
                    (
                        PipelineState::Failed {
                            error: TranscribeError::ToolFailure(String::new()),
                        },
                        acts,
                    )
                }
            },
            Err(m) => {
                let fid2 = file_id.clone();
                let ghost fidv = file_id@;
                let mut acts: Vec<PipelineAction> = Vec::new();
                acts.push(PipelineAction::RemoveWav { file_id });
                acts.push(PipelineAction::RemoveResult { file_id: fid2 });
                proof {
                    assert(actions_view(acts@) =~= seq![
                        ActionV::RemoveWav { file_id: fidv },
                        ActionV::RemoveResult { file_id: fidv },
                    ]);
                }
                (PipelineState::Failed { error: TranscribeError::ProcessSpawnError(m) }, acts)
            },
        },
        (PipelineState::AwaitRead { file_id }, PipelineEvent::OutputRead { result }) => match result {
            Ok(bytes) => match parse_transcript(&bytes) {
                Some(t) => {
                    let fid2 = file_id.clone();
                    let bound = t.with_file_id(file_id);
                    let copy = bound.duplicate();
                    let mut acts: Vec<PipelineAction> = Vec::new();
                    acts.push(PipelineAction::RemoveResult { file_id: fid2.clone() });
                    acts.push(PipelineAction::StoreTranscript { transcript: copy });
                    proof {
                        assert(actions_view(acts@) =~= seq![
                            ActionV::RemoveResult { file_id: fid2@ },
                            ActionV::StoreTranscript { transcript: bound@ },
                        ]);
                    }
                    (PipelineState::AwaitPersist { transcript: bound }, acts)
                },
                None => {
                    let mut acts: Vec<PipelineAction> = Vec::new();
                    let ghost fidv = file_id@;
                    acts.push(PipelineAction::RemoveResult { file_id });
                    proof {
                        assert(actions_view(acts@) =~= seq![
                            ActionV::RemoveResult { file_id: fidv },
                        ]);
                    }
                    (
                        PipelineState::Failed {
                            error: TranscribeError::MalformedToolOutput(
                                String::from_str("unexpected transcript shape"),
                            ),
                        },
                        acts,
                    )
                },
            },
            Err(m) => {
                let mut acts: Vec<PipelineAction> = Vec::new();
                let ghost fidv = file_id@;
                acts.push(PipelineAction::RemoveResult { file_id });
                proof {
                    assert(actions_view(acts@) =~= seq![ActionV::RemoveResult { file_id: fidv }]);
                }
                (PipelineState::Failed { error: TranscribeError::MalformedToolOutput(m) }, acts)
            },
        },
        (PipelineState::AwaitPersist { transcript }, PipelineEvent::Persisted { result }) => match result {
            Ok(storage_id) => (PipelineState::Done { transcript }, no_actions()),
            Err(m) => (
                PipelineState::Failed { error: TranscribeError::StorageError(m) },
                no_actions(),
            ),
        },
        (other, unexpected) => (other, no_actions()),
    }
}

/// An empty action list.
fn no_actions() -> (r: Vec<PipelineAction>)
    ensures
        actions_view(r@) == Seq::<ActionV>::empty(),
{
    let r: Vec<PipelineAction> = Vec::new();
    proof {
        assert(actions_view(r@) =~= Seq::<ActionV>::empty());
    }
    r
}

impl PipelineState {
    /// Whether the run has ended, in success or failure.
    pub fn is_terminal(&self) -> (r: bool)
        ensures
            r == (self@ is Done || self@ is Failed),
    {
        match self {
            PipelineState::Done { .. } => true,
            PipelineState::Failed { .. } => true,
            _ => false,
        }
    }
}

/// A whole run at the spec level: the machine folded over the events the
/// driver reported, accumulating every emitted action.
pub open spec fn spec_run(s: StateV, events: Seq<EventV>) -> (StateV, Seq<ActionV>)
    decreases events.len(),
{
    if events.len() == 0 {
        (s, Seq::empty())
    } else {
        let first = spec_step(s, events[0]);
        let rest = spec_run(first.0, events.drop_first());
        (rest.0, first.1 + rest.1)
    }
}

/// A terminal state absorbs every further event: nothing changes and no
/// action is ever asked for again.
pub proof fn lemma_terminal_run(s: StateV, events: Seq<EventV>)
    requires
        s is Done || s is Failed,
    ensures
        spec_run(s, events) == (s, Seq::<ActionV>::empty()),
    decreases events.len(),
{
    if events.len() > 0 {
        assert(spec_step(s, events[0]) == (s, Seq::<ActionV>::empty()));
        lemma_terminal_run(s, events.drop_first());
        assert(Seq::<ActionV>::empty() + Seq::<ActionV>::empty()
            =~= Seq::<ActionV>::empty());
    }
}

/// An action that launches an external tool.
pub open spec fn is_tool_action(a: ActionV) -> bool {
    a is RunNormalize || a is RunRecognize
}

/// No action in the list launches a tool.
pub open spec fn no_tool_actions(acts: Seq<ActionV>) -> bool {
    forall|i: int| 0 <= i < acts.len() ==> !is_tool_action(#[trigger] acts[i])
}

/// No action in the list writes to the transcript store.
pub open spec fn no_store_actions(acts: Seq<ActionV>) -> bool {
    forall|i: int| 0 <= i < acts.len() ==> !(#[trigger] acts[i] is StoreTranscript)
}

/// A run that begins with a malformed identifier fails at once with
/// `InvalidIdentifier` and never asks the driver for anything.
pub proof fn lemma_invalid_identifier(id: Seq<char>, events: Seq<EventV>)
    requires
        !is_well_formed_id(id),
    ensures
        (spec_init(id).0 == StateV::Failed { error: ErrorV::InvalidIdentifier }),
        (spec_init(id).1 == Seq::<ActionV>::empty()),
        (spec_run(spec_init(id).0, events) == (spec_init(id).0, Seq::<ActionV>::empty())),
{
    lemma_terminal_run(spec_init(id).0, events);
}

/// Unknown identifier: when the blob store reports the file absent, the run
/// fails with `NotFound`, and no fetch, tool or store action — nothing that
/// could create a scratch file — is ever issued, whatever else the driver
/// reports afterwards.
pub proof fn lemma_unknown_identifier(id: Seq<char>, tail: Seq<EventV>)
    requires
        is_well_formed_id(id),
    ensures
        ({
            let events = seq![EventV::Resolved { result: Ok(None) }] + tail;
            let r = spec_run(spec_init(id).0, events);
            &&& r.0 == StateV::Failed { error: ErrorV::NotFound }
            &&& r.1 == Seq::<ActionV>::empty()
            &&& spec_init(id).1 == seq![ActionV::LookupFile { id }]
        }),
{
    let events = seq![EventV::Resolved { result: Ok(None) }] + tail;
    let s0 = spec_init(id).0;
    assert(events[0] == EventV::Resolved { result: Ok::<Option<Seq<char>>, Seq<char>>(None) });
    assert(events.drop_first() =~= tail);
    let first = spec_step(s0, events[0]);
    assert(first.0 == StateV::Failed { error: ErrorV::NotFound });
    lemma_terminal_run(first.0, tail);
    assert(first.1 + Seq::<ActionV>::empty() =~= Seq::<ActionV>::empty());
}

/// Cache hit: when a transcript already exists for the file, the run
/// returns exactly that transcript — byte for byte the stored value — and
/// neither the normalization nor the recognition tool is ever launched, nor
/// is anything written or fetched. This is the idempotent-reuse guarantee:
/// a repeat request after a first success costs two lookups and nothing
/// else.
pub proof fn lemma_cache_hit(id: Seq<char>, fid: Seq<char>, t: TranscriptV, tail: Seq<EventV>)
    requires
        is_well_formed_id(id),
    ensures
        ({
            let events = seq![
                EventV::Resolved { result: Ok(Some(fid)) },
                EventV::CacheChecked { result: Ok(Some(t)) },
            ] + tail;
            let r = spec_run(spec_init(id).0, events);
            &&& r.0 == StateV::Done { transcript: t }
            &&& no_tool_actions(spec_init(id).1 + r.1)
            &&& no_store_actions(spec_init(id).1 + r.1)
            &&& forall|i: int| 0 <= i < (spec_init(id).1 + r.1).len()
                ==> !((#[trigger] (spec_init(id).1 + r.1)[i]) is FetchBlob)
        }),
{
    let events = seq![
        EventV::Resolved { result: Ok(Some(fid)) },
        EventV::CacheChecked { result: Ok(Some(t)) },
    ] + tail;
    let s0 = spec_init(id).0;
    assert(events[0] == EventV::Resolved { result: Ok::<Option<Seq<char>>, Seq<char>>(Some(fid)) });
    let first = spec_step(s0, events[0]);
    assert(first.0 == StateV::AwaitCache { file_id: fid });
    let rest1 = events.drop_first();
    assert(rest1 =~= seq![EventV::CacheChecked { result: Ok(Some(t)) }] + tail);
    assert(rest1[0] == EventV::CacheChecked {
        result: Ok::<Option<TranscriptV>, Seq<char>>(Some(t)),
    });
    let second = spec_step(first.0, rest1[0]);
    assert(second.0 == StateV::Done { transcript: t });
    assert(rest1.drop_first() =~= tail);
    lemma_terminal_run(second.0, tail);
    let r = spec_run(s0, events);
    let r1 = spec_run(first.0, rest1);
    let r2 = spec_run(second.0, tail);
    assert(events.drop_first() == rest1);
    assert(r == (r1.0, first.1 + r1.1));
    assert(rest1.drop_first() == tail);
    assert(r1 == (r2.0, second.1 + r2.1));
    assert(r.1 =~= first.1 + (second.1 + Seq::<ActionV>::empty()));
    assert(r.1 =~= seq![ActionV::FindTranscript { file_id: fid }]);
    let all = spec_init(id).1 + r.1;
    assert(all =~= seq![
        ActionV::LookupFile { id },
        ActionV::FindTranscript { file_id: fid },
    ]);
}

/// Failure propagation: when the normalization tool exits nonzero, the run
/// fails with `ToolFailure` carrying the tool's captured diagnostics, the
/// fetched scratch file is removed, and nothing is written to the
/// transcript store — so a later request for the same file misses the cache
/// and re-attempts the fetch (visible here as the `FetchBlob` this very run
/// issued after its own cache miss).
pub proof fn lemma_normalize_failure(
    id: Seq<char>,
    fid: Seq<char>,
    diag: Seq<char>,
    tail: Seq<EventV>,
)
    requires
        is_well_formed_id(id),
    ensures
        ({
            let events = seq![
                EventV::Resolved { result: Ok(Some(fid)) },
                EventV::CacheChecked { result: Ok(None) },
                EventV::Fetched { result: Ok(()) },
                EventV::Normalized {
                    result: Ok(ToolOutcomeV { success: false, stderr: diag }),
                },
            ] + tail;
            let r = spec_run(spec_init(id).0, events);
            &&& r.0 == StateV::Failed { error: ErrorV::ToolFailure(diag) }
            &&& no_store_actions(spec_init(id).1 + r.1)
            &&& r.1.contains(ActionV::RemoveFetched { file_id: fid })
            &&& r.1.contains(ActionV::FetchBlob { file_id: fid })
        }),
{
    let events = seq![
        EventV::Resolved { result: Ok(Some(fid)) },
        EventV::CacheChecked { result: Ok(None) },
        EventV::Fetched { result: Ok(()) },
        EventV::Normalized { result: Ok(ToolOutcomeV { success: false, stderr: diag }) },
    ] + tail;
    let s0 = spec_init(id).0;
    assert(events[0] == EventV::Resolved { result: Ok::<Option<Seq<char>>, Seq<char>>(Some(fid)) });
    let st1 = spec_step(s0, events[0]);
    let rest1 = events.drop_first();
    assert(rest1 =~= seq![
        EventV::CacheChecked { result: Ok(None) },
        EventV::Fetched { result: Ok(()) },
        EventV::Normalized { result: Ok(ToolOutcomeV { success: false, stderr: diag }) },
    ] + tail);
    assert(rest1[0] == EventV::CacheChecked {
        result: Ok::<Option<TranscriptV>, Seq<char>>(None),
    });
    let st2 = spec_step(st1.0, rest1[0]);
    assert(st2.0 == StateV::AwaitFetch { file_id: fid });
    let rest2 = rest1.drop_first();
    assert(rest2 =~= seq![
        EventV::Fetched { result: Ok(()) },
        EventV::Normalized { result: Ok(ToolOutcomeV { success: false, stderr: diag }) },
    ] + tail);
    assert(rest2[0] == EventV::Fetched { result: Ok::<(), Seq<char>>(()) });
    let st3 = spec_step(st2.0, rest2[0]);
    assert(st3.0 == StateV::AwaitNormalize { file_id: fid });
    let rest3 = rest2.drop_first();
    assert(rest3 =~= seq![
        EventV::Normalized { result: Ok(ToolOutcomeV { success: false, stderr: diag }) },
    ] + tail);
    assert(rest3[0] == EventV::Normalized {
        result: Ok::<ToolOutcomeV, Seq<char>>(ToolOutcomeV { success: false, stderr: diag }),
    });
    let st4 = spec_step(st3.0, rest3[0]);
    assert(st4.0 == StateV::Failed { error: ErrorV::ToolFailure(diag) });
    let rest4 = rest3.drop_first();
    assert(rest4 =~= tail);
    lemma_terminal_run(st4.0, tail);
    let r = spec_run(s0, events);
    let r1 = spec_run(st1.0, rest1);
    let r2 = spec_run(st2.0, rest2);
    let r3 = spec_run(st3.0, rest3);
    let r4 = spec_run(st4.0, tail);
    assert(events.drop_first() == rest1);
    assert(r == (r1.0, st1.1 + r1.1));
    assert(rest1.drop_first() == rest2);
    assert(r1 == (r2.0, st2.1 + r2.1));
    assert(rest2.drop_first() == rest3);
    assert(r2 == (r3.0, st3.1 + r3.1));
    assert(rest3.drop_first() == tail);
    assert(r3 == (r4.0, st4.1 + r4.1));
    assert(r.1 =~= st1.1 + (st2.1 + (st3.1 + (st4.1 + Seq::<ActionV>::empty()))));
    assert(r.1 =~= seq![
        ActionV::FindTranscript { file_id: fid },
        ActionV::FetchBlob { file_id: fid },
        ActionV::RunNormalize { file_id: fid },
        ActionV::RemoveFetched { file_id: fid },
        ActionV::RemoveWav { file_id: fid },
    ]);
    assert(r.1[3] == ActionV::RemoveFetched { file_id: fid });
    assert(r.1[1] == ActionV::FetchBlob { file_id: fid });
    let all = spec_init(id).1 + r.1;
    assert(forall|i: int| 0 <= i < all.len() ==> !(#[trigger] all[i] is StoreTranscript));
}

/// A freshly computed transcript is the one that was persisted: whenever a
/// run ends in `Done { t }`, either this very run issued
/// `StoreTranscript { t }`, or `t` came back from the cache probe, or the
/// run began at or beyond the persist stage with `t` in hand. Together with
/// the cache-hit law this is the idempotence guarantee: what Transcribe
/// returns is exactly what the store holds for that file.
pub proof fn lemma_done_provenance(s: StateV, events: Seq<EventV>, t: TranscriptV)
    ensures
        ({
            let r = spec_run(s, events);
            r.0 == StateV::Done { transcript: t } ==> {
                ||| r.1.contains(ActionV::StoreTranscript { transcript: t })
                ||| events.contains(EventV::CacheChecked { result: Ok(Some(t)) })
                ||| s == StateV::Done { transcript: t }
                ||| s == StateV::AwaitPersist { transcript: t }
            }
        }),
    decreases events.len(),
{
    let r = spec_run(s, events);
    if events.len() == 0 {
    } else {
        let first = spec_step(s, events[0]);
        lemma_done_provenance(first.0, events.drop_first(), t);
        let rest = spec_run(first.0, events.drop_first());
        if r.0 == (StateV::Done { transcript: t }) {
            if rest.1.contains(ActionV::StoreTranscript { transcript: t }) {
                let i = choose|i: int|
                    0 <= i < rest.1.len() && rest.1[i] == ActionV::StoreTranscript {
                        transcript: t,
                    };
                assert(r.1[first.1.len() + i] == ActionV::StoreTranscript { transcript: t });
                assert(r.1.contains(ActionV::StoreTranscript { transcript: t }));
            } else if events.drop_first().contains(
                EventV::CacheChecked { result: Ok(Some(t)) },
            ) {
                let i = choose|i: int|
                    0 <= i < events.drop_first().len() && events.drop_first()[i]
                        == EventV::CacheChecked { result: Ok(Some(t)) };
                assert(events[i + 1] == EventV::CacheChecked { result: Ok(Some(t)) });
                assert(events.contains(EventV::CacheChecked { result: Ok(Some(t)) }));
            } else if first.0 == (StateV::Done { transcript: t }) {
                if s is AwaitCache && events[0] matches EventV::CacheChecked { result: Ok(Some(c)) } {
                    assert(events.contains(events[0]));
                } else {
                }
            } else if first.0 == (StateV::AwaitPersist { transcript: t }) {
                if s is AwaitRead {
                    assert(first.1.len() == 2 && first.1[1] == ActionV::StoreTranscript {
                        transcript: t,
                    });
                    assert(r.1[1] == ActionV::StoreTranscript { transcript: t });
                    assert(r.1.contains(ActionV::StoreTranscript { transcript: t }));
                } else {
                }
            }
        }
    }
}

/// One scratch file of one run.
pub enum ScratchV {
    Fetched(Seq<char>),
    Wav(Seq<char>),
    ToolResult(Seq<char>),
}

/// The scratch files that exist while the machine stands in `s`.
pub open spec fn live_scratch(s: StateV) -> Set<ScratchV> {
    match s {
        StateV::AwaitNormalize { file_id } => set![ScratchV::Fetched(file_id)],
        StateV::AwaitRecognize { file_id } => set![ScratchV::Wav(file_id)],
        StateV::AwaitRead { file_id } => set![ScratchV::ToolResult(file_id)],
        _ => Set::empty(),
    }
}

/// The scratch files that performing the pending action of `s` may have
/// brought into being, as reported by `e`. A failed step counts too: a
/// failed fetch, normalization or recognition may have written its output
/// partially before failing.
pub open spec fn created_by(s: StateV, e: EventV) -> Set<ScratchV> {
    match (s, e) {
        (StateV::AwaitFetch { file_id }, EventV::Fetched { result }) => set![
            ScratchV::Fetched(file_id),
        ],
        (StateV::AwaitNormalize { file_id }, EventV::Normalized { result }) => set![
            ScratchV::Wav(file_id),
        ],
        (StateV::AwaitRecognize { file_id }, EventV::Recognized { result }) => set![
            ScratchV::ToolResult(file_id),
        ],
        _ => Set::empty(),
    }
}

/// Every scratch file a whole run may have created.
pub open spec fn created_run(s: StateV, events: Seq<EventV>) -> Set<ScratchV>
    decreases events.len(),
{
    if events.len() == 0 {
        Set::empty()
    } else {
        created_by(s, events[0]).union(
            created_run(spec_step(s, events[0]).0, events.drop_first()),
        )
    }
}

/// The scratch files an action list removes.
pub open spec fn removed_by(acts: Seq<ActionV>) -> Set<ScratchV>
    decreases acts.len(),
{
    if acts.len() == 0 {
        Set::empty()
    } else {
        (match acts[0] {
            ActionV::RemoveFetched { file_id } => set![ScratchV::Fetched(file_id)],
            ActionV::RemoveWav { file_id } => set![ScratchV::Wav(file_id)],
            ActionV::RemoveResult { file_id } => set![ScratchV::ToolResult(file_id)],
            _ => Set::empty(),
        }).union(removed_by(acts.drop_first()))
    }
}

proof fn lemma_removed_by_app(a: Seq<ActionV>, b: Seq<ActionV>)
    ensures
        removed_by(a + b) == removed_by(a).union(removed_by(b)),
    decreases a.len(),
{
    if a.len() == 0 {
        assert(a + b =~= b);
        assert(Set::<ScratchV>::empty().union(removed_by(b)) =~= removed_by(b));
    } else {
        assert((a + b).drop_first() =~= a.drop_first() + b);
        assert((a + b)[0] == a[0]);
        lemma_removed_by_app(a.drop_first(), b);
        assert(removed_by(a + b) =~= removed_by(a).union(removed_by(b)));
    }
}

/// One step accounts for its scratch files: whatever was live before it or
/// created during it is either removed by its actions or still live after.
proof fn lemma_step_cleanup(s: StateV, e: EventV)
    ensures
        live_scratch(s).union(created_by(s, e)).subset_of(
            removed_by(spec_step(s, e).1).union(live_scratch(spec_step(s, e).0)),
        ),
{
    let acts = spec_step(s, e).1;
    assert forall|x: ScratchV| live_scratch(s).union(created_by(s, e)).contains(x) implies
        removed_by(acts).union(live_scratch(spec_step(s, e).0)).contains(x) by {
        if acts.len() >= 1 {
            assert(removed_by(acts.drop_first()) == (if acts.len() == 1 {
                Set::<ScratchV>::empty()
            } else {
                removed_by(acts.drop_first())
            }));
            if acts.len() == 1 {
                assert(acts.drop_first().len() == 0);
            } else {
                assert(acts.drop_first()[0] == acts[1]);
                assert(acts.drop_first().drop_first().len() == acts.len() - 2);
            }
        }
    }
}

/// Every scratch file a run created or inherited is removed by the run's
/// actions or still pending in its final state.
pub proof fn lemma_run_cleanup(s: StateV, events: Seq<EventV>)
    ensures
        ({
            let r = spec_run(s, events);
            live_scratch(s).union(created_run(s, events)).subset_of(
                removed_by(r.1).union(live_scratch(r.0)),
            )
        }),
    decreases events.len(),
{
    let r = spec_run(s, events);
    if events.len() == 0 {
        assert(live_scratch(s).union(Set::<ScratchV>::empty()) =~= live_scratch(s));
        assert(live_scratch(s).subset_of(removed_by(r.1).union(live_scratch(r.0))));
    } else {
        let first = spec_step(s, events[0]);
        let rest = spec_run(first.0, events.drop_first());
        lemma_step_cleanup(s, events[0]);
        lemma_run_cleanup(first.0, events.drop_first());
        lemma_removed_by_app(first.1, rest.1);
        assert forall|x: ScratchV| live_scratch(s).union(created_run(s, events)).contains(x)
            implies removed_by(r.1).union(live_scratch(r.0)).contains(x) by {
            if live_scratch(s).contains(x) || created_by(s, events[0]).contains(x) {
                assert(removed_by(first.1).union(live_scratch(first.0)).contains(x));
                if live_scratch(first.0).contains(x) {
                    assert(removed_by(rest.1).union(live_scratch(rest.0)).contains(x));
                }
            } else {
                assert(created_run(first.0, events.drop_first()).contains(x));
                assert(removed_by(rest.1).union(live_scratch(rest.0)).contains(x));
            }
        }
    }
}

/// Cleanup completeness: a run that has come to rest — in success or in
/// any failure — has removed every scratch file it created; none remains
/// in the working directory.
pub proof fn lemma_cleanup_complete(id: Seq<char>, events: Seq<EventV>)
    requires
        spec_run(spec_init(id).0, events).0 is Done || spec_run(spec_init(id).0, events).0
            is Failed,
    ensures
        created_run(spec_init(id).0, events).subset_of(
            removed_by(spec_run(spec_init(id).0, events).1),
        ),
{
    let s0 = spec_init(id).0;
    let r = spec_run(s0, events);
    lemma_run_cleanup(s0, events);
    assert(live_scratch(s0) =~= Set::<ScratchV>::empty());
    assert(live_scratch(r.0) =~= Set::<ScratchV>::empty());
    assert forall|x: ScratchV| created_run(s0, events).contains(x) implies removed_by(
        r.1,
    ).contains(x) by {
        assert(live_scratch(s0).union(created_run(s0, events)).contains(x));
        assert(removed_by(r.1).union(live_scratch(r.0)).contains(x));
    }
}

} // verus!

use vstd::prelude::*;

verus! {

/// The error kinds a pipeline run can end with. Every failure is terminal for
/// the run that raised it; nothing is retried inside the library.
#[derive(Debug, Clone)]
pub enum TranscribeError {
    /// The referenced file is absent from the blob store.
    NotFound,
    /// The identifier is not a well-formed blob-store handle.
    InvalidIdentifier,
    /// The storage backend failed; carries the backend's message.
    StorageError(String),
    /// An external tool could not be launched at all.
    ProcessSpawnError(String),
    /// An external tool ran and exited nonzero; carries its captured
    /// diagnostic stream (empty when the tool's streams were inherited).
    ToolFailure(String),
    /// The tool's result file was missing or did not parse into the
    /// expected shape.
    MalformedToolOutput(String),
    /// A local scratch file could not be read or written.
    IOError(String),
}

/// Spec-level mirror of `TranscribeError`, used by the pipeline model.
pub enum ErrorV {
    NotFound,
    InvalidIdentifier,
    StorageError(Seq<char>),
    ProcessSpawnError(Seq<char>),
    ToolFailure(Seq<char>),
    MalformedToolOutput(Seq<char>),
    IOError(Seq<char>),
}

impl View for TranscribeError {
    type V = ErrorV;

    open spec fn view(&self) -> ErrorV {
        match self {
            TranscribeError::NotFound => ErrorV::NotFound,
            TranscribeError::InvalidIdentifier => ErrorV::InvalidIdentifier,
            TranscribeError::StorageError(m) => ErrorV::StorageError(m@),
            TranscribeError::ProcessSpawnError(m) => ErrorV::ProcessSpawnError(m@),
            TranscribeError::ToolFailure(m) => ErrorV::ToolFailure(m@),
            TranscribeError::MalformedToolOutput(m) => ErrorV::MalformedToolOutput(m@),
            TranscribeError::IOError(m) => ErrorV::IOError(m@),
        }
    }
}

impl TranscribeError {
    /// A short stable tag for each kind, for transport-layer mapping and logs.
    pub fn kind_name(&self) -> (r: &'static str)
        ensures
            (self@ is NotFound) ==> r@ == "not_found"@,
            (self@ is InvalidIdentifier) ==> r@ == "invalid_identifier"@,
            (self@ is StorageError) ==> r@ == "storage_error"@,
            (self@ is ProcessSpawnError) ==> r@ == "process_spawn_error"@,
            (self@ is ToolFailure) ==> r@ == "tool_failure"@,
            (self@ is MalformedToolOutput) ==> r@ == "malformed_tool_output"@,
            (self@ is IOError) ==> r@ == "io_error"@,
    {
        match self {
            TranscribeError::NotFound => "not_found",
            TranscribeError::InvalidIdentifier => "invalid_identifier",
            TranscribeError::StorageError(_) => "storage_error",
            TranscribeError::ProcessSpawnError(_) => "process_spawn_error",
            TranscribeError::ToolFailure(_) => "tool_failure",
            TranscribeError::MalformedToolOutput(_) => "malformed_tool_output",
            TranscribeError::IOError(_) => "io_error",
        }
    }
}

} // verus!

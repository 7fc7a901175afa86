//! Core of a media transcription service.
//!
//! The library holds the logic that is worth reasoning about: validation of
//! blob-store handles, deterministic scratch-path naming, interpretation of
//! stored file metadata, the parser and printer for the recognition tool's
//! JSON output, and the transcription pipeline itself, written as an explicit
//! state machine. All I/O — the HTTP transport, the blob store, the transcript
//! store, and the external tool processes — is performed by a thin driver
//! around the library, which feeds the state machine one event at a time.

pub mod errors;
pub mod ident;
pub mod paths;
pub mod pipeline;
pub mod stored;
pub mod tooljson;
pub mod transcript;

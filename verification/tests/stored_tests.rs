use soundblast::errors::TranscribeError;
use soundblast::ident::validate_id;
use soundblast::paths::{fetch_path, result_path, stream_path, wav_path};
use soundblast::stored::{extract_file, extract_files, validate_upload, ExtractError, FileRecord, Tags, UploadError};

fn full_record() -> FileRecord {
    FileRecord {
        id: Some("0123456789abcdef01234567".to_string()),
        length: 2048,
        filename: Some("sample.wav".to_string()),
        tags: Some(Tags {
            content_type: Some("audio/wav".to_string()),
            thumbnail: Some("thumb-1".to_string()),
        }),
    }
}

#[test]
fn extracts_a_complete_record() {
    let f = extract_file(full_record()).expect("complete record");
    assert_eq!(f.id, "0123456789abcdef01234567");
    assert_eq!(f.length, 2048);
    assert_eq!(f.filename, "sample.wav");
    assert_eq!(f.metadata.content_type, "audio/wav");
    assert_eq!(f.metadata.thumbnail, "thumb-1");
}

#[test]
fn rejects_record_without_object_id() {
    let mut r = full_record();
    r.id = None;
    assert!(matches!(extract_file(r), Err(ExtractError::InvalidObjectId)));
}

#[test]
fn rejects_record_without_metadata() {
    let mut r = full_record();
    r.tags = None;
    assert!(matches!(extract_file(r), Err(ExtractError::MissingMetadata)));
}

#[test]
fn rejects_record_without_content_type() {
    let mut r = full_record();
    r.tags.as_mut().unwrap().content_type = None;
    assert!(matches!(extract_file(r), Err(ExtractError::MissingContentType)));
}

#[test]
fn rejects_record_without_thumbnail() {
    let mut r = full_record();
    r.tags.as_mut().unwrap().thumbnail = None;
    assert!(matches!(extract_file(r), Err(ExtractError::MissingThumbnail)));
}

#[test]
fn rejects_record_without_filename() {
    let mut r = full_record();
    r.filename = None;
    assert!(matches!(extract_file(r), Err(ExtractError::MissingFilename)));
}

#[test]
fn one_malformed_entry_fails_the_whole_listing() {
    let mut bad = full_record();
    bad.tags = None;
    let out = extract_files(vec![full_record(), bad, full_record()]);
    assert_eq!(out.unwrap_err(), ExtractError::MissingMetadata);
}

#[test]
fn listing_of_well_formed_entries_keeps_order() {
    let mut second = full_record();
    second.filename = Some("b.mp3".to_string());
    let out = extract_files(vec![full_record(), second]).expect("all entries interpretable");
    assert_eq!(out.len(), 2);
    assert_eq!(out[0].filename, "sample.wav");
    assert_eq!(out[1].filename, "b.mp3");
}

#[test]
fn empty_listing_is_empty() {
    let out = extract_files(Vec::new()).expect("empty listing");
    assert!(out.is_empty());
}

#[test]
fn validates_well_formed_handles() {
    assert!(validate_id("0123456789abcdef01234567"));
    assert!(validate_id("ABCDEF0123456789abcdef01"));
    assert!(!validate_id("0123456789abcdef0123456"));
    assert!(!validate_id("0123456789abcdef012345678"));
    assert!(!validate_id("0123456789abcdef0123456g"));
    assert!(!validate_id(""));
    assert!(!validate_id("../../../../etc/passwd00"));
}

#[test]
fn scratch_paths_are_deterministic() {
    let id = "0123456789abcdef01234567";
    assert_eq!(fetch_path("/tmp/work", id), "/tmp/work/0123456789abcdef01234567");
    assert_eq!(wav_path("/tmp/work", id), "/tmp/work/0123456789abcdef01234567.wav");
    assert_eq!(
        result_path("/tmp/work", id),
        "/tmp/work/0123456789abcdef01234567.wav.words.json"
    );
}

#[test]
fn error_kinds_have_stable_names() {
    assert_eq!(TranscribeError::NotFound.kind_name(), "not_found");
    assert_eq!(TranscribeError::InvalidIdentifier.kind_name(), "invalid_identifier");
    assert_eq!(TranscribeError::StorageError("x".to_string()).kind_name(), "storage_error");
    assert_eq!(
        TranscribeError::ProcessSpawnError("x".to_string()).kind_name(),
        "process_spawn_error"
    );
    assert_eq!(TranscribeError::ToolFailure("x".to_string()).kind_name(), "tool_failure");
    assert_eq!(
        TranscribeError::MalformedToolOutput("x".to_string()).kind_name(),
        "malformed_tool_output"
    );
    assert_eq!(TranscribeError::IOError("x".to_string()).kind_name(), "io_error");
}

#[test]
fn upload_requires_filename_and_content_type() {
    assert!(matches!(
        validate_upload(None, Some("audio/wav".to_string()), None),
        Err(UploadError::MissingFileName)
    ));
    assert!(matches!(
        validate_upload(Some("sample.wav".to_string()), None, Some("t".to_string())),
        Err(UploadError::MissingContentType)
    ));
    let (name, meta) = validate_upload(
        Some("sample.wav".to_string()),
        Some("audio/wav".to_string()),
        Some("thumb-1".to_string()),
    )
    .expect("both required fields present");
    assert_eq!(name, "sample.wav");
    assert_eq!(meta.content_type, "audio/wav");
    assert_eq!(meta.thumbnail, "thumb-1");
}

#[test]
fn upload_thumbnail_defaults_to_empty() {
    let (_, meta) = validate_upload(
        Some("a.mp3".to_string()),
        Some("audio/mpeg".to_string()),
        None,
    )
    .expect("thumbnail is optional");
    assert_eq!(meta.thumbnail, "");
}

#[test]
fn stream_path_is_deterministic() {
    let id = "0123456789abcdef01234567";
    assert_eq!(
        stream_path("/tmp/work", id),
        "/tmp/work/0123456789abcdef01234567_stream"
    );
}

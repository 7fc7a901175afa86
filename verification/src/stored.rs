use vstd::prelude::*;

verus! {

/// The metadata kept with a stored file. Every stored entry must carry both
/// fields; a listing fails hard on an entry that lacks one.
#[derive(Debug, Clone)]
pub struct Metadata {
    pub content_type: String,
    pub thumbnail: String,
}

/// A stored file as the listing and download endpoints report it.
#[derive(Debug, Clone)]
pub struct File {
    pub id: String,
    pub length: u64,
    pub metadata: Metadata,
    pub filename: String,
}

/// What the blob-store backend actually hands back for one entry: every
/// field it may omit or hold in an unusable form is optional here, and the
/// library decides what that means.
#[derive(Debug, Clone)]
pub struct FileRecord {
    /// The entry's key in textual form; absent when the key is not a
    /// well-formed object identifier.
    pub id: Option<String>,
    pub length: u64,
    pub filename: Option<String>,
    pub tags: Option<Tags>,
}

/// The raw tag document of a stored entry; either expected tag may be
/// missing or non-textual, in which case it is absent here.
#[derive(Debug, Clone)]
pub struct Tags {
    pub content_type: Option<String>,
    pub thumbnail: Option<String>,
}

/// Why one stored entry could not be interpreted.
#[derive(Debug, Clone, Copy, PartialEq, Eq, Structural)]
pub enum ExtractError {
    InvalidObjectId,
    MissingMetadata,
    MissingContentType,
    MissingThumbnail,
    MissingFilename,
}

/// Mathematical model of `Metadata`.
pub struct MetadataV {
    pub content_type: Seq<char>,
    pub thumbnail: Seq<char>,
}

/// Mathematical model of `File`.
pub struct FileV {
    pub id: Seq<char>,
    pub length: u64,
    pub metadata: MetadataV,
    pub filename: Seq<char>,
}

/// Mathematical model of `FileRecord`.
pub struct FileRecordV {
    pub id: Option<Seq<char>>,
    pub length: u64,
    pub filename: Option<Seq<char>>,
    pub tags: Option<TagsV>,
}

/// Mathematical model of `Tags`.
pub struct TagsV {
    pub content_type: Option<Seq<char>>,
    pub thumbnail: Option<Seq<char>>,
}

impl View for Metadata {
    type V = MetadataV;

    open spec fn view(&self) -> MetadataV {
        MetadataV { content_type: self.content_type@, thumbnail: self.thumbnail@ }
    }
}

impl View for File {
    type V = FileV;

    open spec fn view(&self) -> FileV {
        FileV {
            id: self.id@,
            length: self.length,
            metadata: self.metadata@,
            filename: self.filename@,
        }
    }
}

impl View for Tags {
    type V = TagsV;

    open spec fn view(&self) -> TagsV {
        TagsV {
            content_type: match self.content_type {
                Some(c) => Some(c@),
                None => None,
            },
            thumbnail: match self.thumbnail {
                Some(t) => Some(t@),
                None => None,
            },
        }
    }
}

impl View for FileRecord {
    type V = FileRecordV;

    open spec fn view(&self) -> FileRecordV {
        FileRecordV {
            id: match self.id {
                Some(i) => Some(i@),
                None => None,
            },
            length: self.length,
            filename: match self.filename {
                Some(f) => Some(f@),
                None => None,
            },
            tags: match self.tags {
                Some(t) => Some(t@),
                None => None,
            },
        }
    }
}

/// How one stored entry is interpreted: the key must be a textual object
/// identifier, both tags and the display filename must be present; the
/// first gap, checked in that order, is the entry's error.
pub open spec fn spec_extract(r: FileRecordV) -> Result<FileV, ExtractError> {
    match r.id {
        None => Err(ExtractError::InvalidObjectId),
        Some(id) => match r.tags {
            None => Err(ExtractError::MissingMetadata),
            Some(tags) => match tags.content_type {
                None => Err(ExtractError::MissingContentType),
                Some(content_type) => match tags.thumbnail {
                    None => Err(ExtractError::MissingThumbnail),
                    Some(thumbnail) => match r.filename {
                        None => Err(ExtractError::MissingFilename),
                        Some(filename) => Ok(
                            FileV {
                                id: id,
                                length: r.length,
                                metadata: MetadataV { content_type, thumbnail },
                                filename: filename,
                            },
                        ),
                    },
                },
            },
        },
    }
}

/// Interprets one stored entry, exactly as `spec_extract` says.
pub fn extract_file(r: FileRecord) -> (out: Result<File, ExtractError>)
    ensures
        match out {
            Ok(f) => spec_extract(r@) == Ok::<FileV, ExtractError>(f@),
            Err(e) => spec_extract(r@) == Err::<FileV, ExtractError>(e),
        },
{
    let id = match r.id {
        Some(i) => i,
        None => {
            return Err(ExtractError::InvalidObjectId);
        },
    };
    let tags = match r.tags {
        Some(t) => t,
        None => {
            return Err(ExtractError::MissingMetadata);
        },
    };
    let content_type = match tags.content_type {
        Some(c) => c,
        None => {
            return Err(ExtractError::MissingContentType);
        },
    };
    let thumbnail = match tags.thumbnail {
        Some(t) => t,
        None => {
            return Err(ExtractError::MissingThumbnail);
        },
    };
    let filename = match r.filename {
        Some(f) => f,
        None => {
            return Err(ExtractError::MissingFilename);
        },
    };
    Ok(File { id, length: r.length, metadata: Metadata { content_type, thumbnail }, filename })
}

/// How a whole listing is interpreted: entry by entry, in order, failing
/// hard on the first entry that cannot be interpreted. A malformed entry is
/// never silently skipped.
pub open spec fn spec_extract_all(s: Seq<FileRecordV>) -> Result<Seq<FileV>, ExtractError>
    decreases s.len(),
{
    if s.len() == 0 {
        Ok(Seq::empty())
    } else {
        match spec_extract(s[0]) {
            Err(e) => Err(e),
            Ok(f) => match spec_extract_all(s.drop_first()) {
                Err(e) => Err(e),
                Ok(rest) => Ok(seq![f] + rest),
            },
        }
    }
}

/// The model of a sequence of raw entries.
pub open spec fn records_view(s: Seq<FileRecord>) -> Seq<FileRecordV> {
    s.map_values(|r: FileRecord| r@)
}

/// The model of a sequence of interpreted files.
pub open spec fn files_view(s: Seq<File>) -> Seq<FileV> {
    s.map_values(|f: File| f@)
}

/// Interprets a whole listing, exactly as `spec_extract_all` says.
pub fn extract_files(rs: Vec<FileRecord>) -> (out: Result<Vec<File>, ExtractError>)
    ensures
        match out {
            Ok(fs) => spec_extract_all(records_view(rs@)) == Ok::<Seq<FileV>, ExtractError>(
                files_view(fs@),
            ),
            Err(e) => spec_extract_all(records_view(rs@)) == Err::<Seq<FileV>, ExtractError>(e),
        },
{
    let ghost full = records_view(rs@);
    let mut rest = rs;
    let mut done: Vec<File> = Vec::new();
    #[verifier::loop_isolation(false)]
    loop
        invariant
            spec_extract_all(full) == (match spec_extract_all(records_view(rest@)) {
                Ok(tail) => Ok::<Seq<FileV>, ExtractError>(files_view(done@) + tail),
                Err(e) => Err::<Seq<FileV>, ExtractError>(e),
            }),
        decreases rest@.len(),
    {
        let ghost rv = records_view(rest@);
        if rest.len() == 0 {
            proof {
                assert(rv.len() == 0);
                assert(files_view(done@) + Seq::<FileV>::empty() =~= files_view(done@));
            }
            return Ok(done);
        }
        let r = rest.remove(0);
        proof {
            assert(rv[0] == r@);
            assert(records_view(rest@) =~= rv.drop_first());
        }
        match extract_file(r) {
            Ok(f) => {
                let ghost before = files_view(done@);
                done.push(f);
                proof {
                    assert(files_view(done@) =~= before + seq![f@]);
                    if spec_extract_all(rv.drop_first()) is Ok {
                        let tail = spec_extract_all(rv.drop_first())->Ok_0;
                        assert((before + seq![f@]) + tail =~= before + (seq![f@] + tail));
                    }
                }
            },
            Err(e) => {
                return Err(e);
            },
        }
    }
}

/// Why an upload was rejected before anything was stored.
#[derive(Debug, Clone, Copy, PartialEq, Eq, Structural)]
pub enum UploadError {
    MissingFileName,
    MissingContentType,
}

/// How an upload's multipart fields are validated: the display filename and
/// the content type are required, in that order of checking; a missing
/// thumbnail reference defaults to the empty string.
pub open spec fn spec_validate_upload(
    filename: Option<Seq<char>>,
    content_type: Option<Seq<char>>,
    thumbnail: Option<Seq<char>>,
) -> Result<(Seq<char>, MetadataV), UploadError> {
    match filename {
        None => Err(UploadError::MissingFileName),
        Some(f) => match content_type {
            None => Err(UploadError::MissingContentType),
            Some(c) => Ok(
                (
                    f,
                    MetadataV {
                        content_type: c,
                        thumbnail: match thumbnail {
                            Some(t) => t,
                            None => Seq::empty(),
                        },
                    },
                ),
            ),
        },
    }
}

/// Validates an upload's fields, exactly as `spec_validate_upload` says.
pub fn validate_upload(
    filename: Option<String>,
    content_type: Option<String>,
    thumbnail: Option<String>,
) -> (out: Result<(String, Metadata), UploadError>)
    ensures
        match out {
            Ok(p) => spec_validate_upload(
                match filename {
                    Some(f) => Some(f@),
                    None => None,
                },
                match content_type {
                    Some(c) => Some(c@),
                    None => None,
                },
                match thumbnail {
                    Some(t) => Some(t@),
                    None => None,
                },
            ) == Ok::<(Seq<char>, MetadataV), UploadError>((p.0@, p.1@)),
            Err(e) => spec_validate_upload(
                match filename {
                    Some(f) => Some(f@),
                    None => None,
                },
                match content_type {
                    Some(c) => Some(c@),
                    None => None,
                },
                match thumbnail {
                    Some(t) => Some(t@),
                    None => None,
                },
            ) == Err::<(Seq<char>, MetadataV), UploadError>(e),
        },
{
    let f = match filename {
        Some(f) => f,
        None => {
            return Err(UploadError::MissingFileName);
        },
    };
    let c = match content_type {
        Some(c) => c,
        None => {
            return Err(UploadError::MissingContentType);
        },
    };
    let t = match thumbnail {
        Some(t) => t,
        None => String::new(),
    };
    Ok((f, Metadata { content_type: c, thumbnail: t }))
}

} // verus!

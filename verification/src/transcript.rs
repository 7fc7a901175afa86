use vstd::prelude::*;

verus! {

/// The raw text of a JSON number token, kept exactly as the recognition tool
/// wrote it. Timing and confidence values are decimal fractions; keeping the
/// token's bytes verbatim lets a transcript be printed back with every
/// numeric field unchanged, digit for digit.
#[derive(Debug, Clone)]
pub struct JsonNumber {
    pub text: Vec<u8>,
}

/// One recognized word: its timing, text, and confidence.
#[derive(Debug, Clone)]
pub struct WhisperResultWord {
    pub start: JsonNumber,
    pub end: JsonNumber,
    pub text: Vec<u8>,
    pub confidence: JsonNumber,
}

/// One contiguous span of recognized speech.
#[derive(Debug, Clone)]
pub struct WhisperResultSegment {
    pub id: u32,
    pub seek: u32,
    pub start: JsonNumber,
    pub end: JsonNumber,
    pub text: Vec<u8>,
    pub tokens: Vec<u32>,
    pub confidence: JsonNumber,
    pub words: Vec<WhisperResultWord>,
}

/// A whole transcript: the originating file's identifier (absent until the
/// pipeline binds the parsed result to its file), the full concatenated
/// text, and the ordered segments.
#[derive(Debug, Clone)]
pub struct WhisperResult {
    pub file_id: Option<String>,
    pub text: Vec<u8>,
    pub segments: Vec<WhisperResultSegment>,
}

/// Mathematical model of a word.
pub struct WordV {
    pub start: Seq<u8>,
    pub end: Seq<u8>,
    pub text: Seq<u8>,
    pub confidence: Seq<u8>,
}

/// Mathematical model of a segment.
pub struct SegmentV {
    pub id: u32,
    pub seek: u32,
    pub start: Seq<u8>,
    pub end: Seq<u8>,
    pub text: Seq<u8>,
    pub tokens: Seq<u32>,
    pub confidence: Seq<u8>,
    pub words: Seq<WordV>,
}

/// Mathematical model of a transcript.
pub struct TranscriptV {
    pub file_id: Option<Seq<char>>,
    pub text: Seq<u8>,
    pub segments: Seq<SegmentV>,
}

impl View for WhisperResultWord {
    type V = WordV;

    open spec fn view(&self) -> WordV {
        WordV {
            start: self.start.text@,
            end: self.end.text@,
            text: self.text@,
            confidence: self.confidence.text@,
        }
    }
}

/// The model of a sequence of words.
pub open spec fn words_view(s: Seq<WhisperResultWord>) -> Seq<WordV> {
    s.map_values(|w: WhisperResultWord| w@)
}

/// The model of a sequence of segments.
pub open spec fn segments_view(s: Seq<WhisperResultSegment>) -> Seq<SegmentV> {
    s.map_values(|g: WhisperResultSegment| g@)
}

impl View for WhisperResultSegment {
    type V = SegmentV;

    open spec fn view(&self) -> SegmentV {
        SegmentV {
            id: self.id,
            seek: self.seek,
            start: self.start.text@,
            end: self.end.text@,
            text: self.text@,
            tokens: self.tokens@,
            confidence: self.confidence.text@,
            words: words_view(self.words@),
        }
    }
}

impl View for WhisperResult {
    type V = TranscriptV;

    open spec fn view(&self) -> TranscriptV {
        TranscriptV {
            file_id: match self.file_id {
                Some(id) => Some(id@),
                None => None,
            },
            text: self.text@,
            segments: segments_view(self.segments@),
        }
    }
}

impl WhisperResult {
    /// Returns this transcript with its file identifier bound, leaving the
    /// text and the segments untouched. The pipeline applies it to the
    /// freshly parsed tool output before persisting.
    pub fn with_file_id(self, id: String) -> (r: WhisperResult)
        ensures
            r@.file_id == Some(id@),
            r@.text == self@.text,
            r@.segments == self@.segments,
    {
        WhisperResult { file_id: Some(id), text: self.text, segments: self.segments }
    }
}

/// Copies a byte vector, keeping its contents.
fn copy_bytes(v: &Vec<u8>) -> (r: Vec<u8>)
    ensures
        r@ == v@,
{
    let mut out: Vec<u8> = Vec::new();
    let mut i: usize = 0;
    while i < v.len()
        invariant
            i <= v@.len(),
            out@ == v@.subrange(0, i as int),
        decreases v@.len() - i,
    {
        out.push(v[i]);
        proof {
            assert(v@.subrange(0, i + 1) =~= v@.subrange(0, i as int).push(v@[i as int]));
        }
        i = i + 1;
    }
    proof {
        assert(v@.subrange(0, v@.len() as int) =~= v@);
    }
    out
}

/// Copies a token-id vector, keeping its contents.
fn copy_u32s(v: &Vec<u32>) -> (r: Vec<u32>)
    ensures
        r@ == v@,
{
    let mut out: Vec<u32> = Vec::new();
    let mut i: usize = 0;
    while i < v.len()
        invariant
            i <= v@.len(),
            out@ == v@.subrange(0, i as int),
        decreases v@.len() - i,
    {
        out.push(v[i]);
        proof {
            assert(v@.subrange(0, i + 1) =~= v@.subrange(0, i as int).push(v@[i as int]));
        }
        i = i + 1;
    }
    proof {
        assert(v@.subrange(0, v@.len() as int) =~= v@);
    }
    out
}

impl JsonNumber {
    /// Copies this number token.
    pub fn duplicate(&self) -> (r: JsonNumber)
        ensures
            r.text@ == self.text@,
    {
        JsonNumber { text: copy_bytes(&self.text) }
    }
}

impl WhisperResultWord {
    /// Copies this word, keeping its model.
    pub fn duplicate(&self) -> (r: WhisperResultWord)
        ensures
            r@ == self@,
    {
        WhisperResultWord {
            start: self.start.duplicate(),
            end: self.end.duplicate(),
            text: copy_bytes(&self.text),
            confidence: self.confidence.duplicate(),
        }
    }
}

impl WhisperResultSegment {
    /// Copies this segment, keeping its model.
    pub fn duplicate(&self) -> (r: WhisperResultSegment)
        ensures
            r@ == self@,
    {
        let mut words: Vec<WhisperResultWord> = Vec::new();
        let mut i: usize = 0;
        while i < self.words.len()
            invariant
                i <= self.words@.len(),
                words_view(words@) == words_view(self.words@).subrange(0, i as int),
            decreases self.words@.len() - i,
        {
            let ghost before = words_view(words@);
            words.push(self.words[i].duplicate());
            proof {
                assert(words_view(words@) =~= before.push(self.words@[i as int]@));
                assert(words_view(self.words@).subrange(0, i + 1) =~= words_view(
                    self.words@,
                ).subrange(0, i as int).push(self.words@[i as int]@));
            }
            i = i + 1;
        }
        proof {
            assert(words_view(self.words@).subrange(0, self.words@.len() as int) =~= words_view(
                self.words@,
            ));
        }
        WhisperResultSegment {
            id: self.id,
            seek: self.seek,
            start: self.start.duplicate(),
            end: self.end.duplicate(),
            text: copy_bytes(&self.text),
            tokens: copy_u32s(&self.tokens),
            confidence: self.confidence.duplicate(),
            words,
        }
    }
}

impl WhisperResult {
    /// Copies this transcript, keeping its model.
    pub fn duplicate(&self) -> (r: WhisperResult)
        ensures
            r@ == self@,
    {
        let file_id = match &self.file_id {
            Some(id) => Some(id.clone()),
            None => None,
        };
        let mut segments: Vec<WhisperResultSegment> = Vec::new();
        let mut i: usize = 0;
        while i < self.segments.len()
            invariant
                i <= self.segments@.len(),
                segments_view(segments@) == segments_view(self.segments@).subrange(0, i as int),
            decreases self.segments@.len() - i,
        {
            let ghost before = segments_view(segments@);
            segments.push(self.segments[i].duplicate());
            proof {
                assert(segments_view(segments@) =~= before.push(self.segments@[i as int]@));
                assert(segments_view(self.segments@).subrange(0, i + 1) =~= segments_view(
                    self.segments@,
                ).subrange(0, i as int).push(self.segments@[i as int]@));
            }
            i = i + 1;
        }
        proof {
            assert(segments_view(self.segments@).subrange(0, self.segments@.len() as int)
                =~= segments_view(self.segments@));
        }
        WhisperResult { file_id, text: copy_bytes(&self.text), segments }
    }
}

} // verus!

use vstd::prelude::*;
use crate::ident::is_well_formed_id;

verus! {

/// The scratch path the fetched blob is streamed to: `<dir>/<id>`.
pub open spec fn spec_fetch_path(dir: Seq<char>, id: Seq<char>) -> Seq<char> {
    dir + "/"@ + id
}

/// The normalized audio written beside the fetched blob: `<dir>/<id>.wav`.
pub open spec fn spec_wav_path(dir: Seq<char>, id: Seq<char>) -> Seq<char> {
    spec_fetch_path(dir, id) + ".wav"@
}

/// The recognition tool's result file: `<dir>/<id>.wav.words.json`.
pub open spec fn spec_result_path(dir: Seq<char>, id: Seq<char>) -> Seq<char> {
    spec_wav_path(dir, id) + ".words.json"@
}

/// Builds the fetch scratch path for a file identifier.
pub fn fetch_path(dir: &str, id: &str) -> (r: String)
    ensures
        r@ == spec_fetch_path(dir@, id@),
{
    let mut out = dir.to_owned();
    out.append("/");
    out.append(id);
    out
}

/// Builds the normalized-audio scratch path for a file identifier.
pub fn wav_path(dir: &str, id: &str) -> (r: String)
    ensures
        r@ == spec_wav_path(dir@, id@),
{
    let mut out = fetch_path(dir, id);
    out.append(".wav");
    out
}

/// Builds the tool-result scratch path for a file identifier.
pub fn result_path(dir: &str, id: &str) -> (r: String)
    ensures
        r@ == spec_result_path(dir@, id@),
{
    let mut out = wav_path(dir, id);
    out.append(".words.json");
    out
}

/// The staging path a blob is downloaded to before being served:
/// `<dir>/<id>_stream`.
pub open spec fn spec_stream_path(dir: Seq<char>, id: Seq<char>) -> Seq<char> {
    spec_fetch_path(dir, id) + "_stream"@
}

/// Builds the download staging path for a file identifier.
pub fn stream_path(dir: &str, id: &str) -> (r: String)
    ensures
        r@ == spec_stream_path(dir@, id@),
{
    let mut out = fetch_path(dir, id);
    out.append("_stream");
    out
}

/// Scratch paths never collide across runs for distinct files: two
/// well-formed identifiers are the same length, so under one working
/// directory each of the four derived names determines the identifier.
pub proof fn lemma_scratch_paths_distinct(dir: Seq<char>, a: Seq<char>, b: Seq<char>)
    requires
        is_well_formed_id(a),
        is_well_formed_id(b),
        a != b,
    ensures
        spec_fetch_path(dir, a) != spec_fetch_path(dir, b),
        spec_wav_path(dir, a) != spec_wav_path(dir, b),
        spec_result_path(dir, a) != spec_result_path(dir, b),
        spec_stream_path(dir, a) != spec_stream_path(dir, b),
{
    reveal_strlit("/");
    let pa = spec_fetch_path(dir, a);
    let pb = spec_fetch_path(dir, b);
    let wa = spec_wav_path(dir, a);
    let wb = spec_wav_path(dir, b);
    assert(a.len() == b.len());
    if pa == pb {
        assert forall|i: int| 0 <= i < a.len() implies a[i] == b[i] by {
            assert(pa[dir.len() + 1 + i] == a[i]);
            assert(pb[dir.len() + 1 + i] == b[i]);
        }
        assert(a =~= b);
    }
    if wa == wb {
        assert forall|i: int| 0 <= i < pa.len() implies pa[i] == pb[i] by {
            assert(wa[i] == pa[i]);
            assert(wb[i] == pb[i]);
        }
        assert(pa =~= pb);
    }
    if spec_stream_path(dir, a) == spec_stream_path(dir, b) {
        let sa = spec_stream_path(dir, a);
        let sb = spec_stream_path(dir, b);
        assert forall|i: int| 0 <= i < pa.len() implies pa[i] == pb[i] by {
            assert(sa[i] == pa[i]);
            assert(sb[i] == pb[i]);
        }
        assert(pa =~= pb);
    }
    if spec_result_path(dir, a) == spec_result_path(dir, b) {
        let ra = spec_result_path(dir, a);
        let rb = spec_result_path(dir, b);
        assert forall|i: int| 0 <= i < wa.len() implies wa[i] == wb[i] by {
            assert(ra[i] == wa[i]);
            assert(rb[i] == wb[i]);
        }
        assert(wa =~= wb);
        assert(pa != pb ==> wa != wb);
    }
}

} // verus!

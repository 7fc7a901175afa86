use vstd::prelude::*;
use crate::transcript::{
    JsonNumber, TranscriptV, SegmentV, WhisperResult, WhisperResultSegment, WhisperResultWord,
    WordV, words_view, segments_view,
};

verus! {

// The recognition tool writes its result as a JSON document of a fixed
// shape: an object holding the full text and the segment list, each segment
// holding its words. This module gives that format a mathematical grammar
// over byte sequences, an executable parser and printer that follow the
// grammar exactly, and the proof that printing a parsed transcript gives
// back every field unchanged.
//
// Timing and confidence values are kept as raw number tokens, so printing
// never reformats a numeric field. String escapes are the single-character
// ones (`\"`, `\\`, `\/`, `\n`, `\t`, `\r`, `\b`, `\f`).

/// JSON insignificant whitespace.
pub open spec fn is_ws(b: u8) -> bool {
    b == 32 || b == 9 || b == 10 || b == 13
}

/// An ASCII decimal digit.
pub open spec fn is_digit(b: u8) -> bool {
    48 <= b <= 57
}

/// The first position at or after `i` that does not hold whitespace.
pub open spec fn skip_ws(s: Seq<u8>, i: int) -> int
    decreases s.len() - i,
{
    if 0 <= i < s.len() && is_ws(s[i]) {
        skip_ws(s, i + 1)
    } else {
        i
    }
}

/// The end of the digit run starting at `i`.
pub open spec fn digits_end(s: Seq<u8>, i: int) -> int
    decreases s.len() - i,
{
    if 0 <= i < s.len() && is_digit(s[i]) {
        digits_end(s, i + 1)
    } else {
        i
    }
}

/// The numeric value of a digit run, most significant digit first.
pub open spec fn dec_value(d: Seq<u8>) -> nat
    decreases d.len(),
{
    if d.len() == 0 {
        0
    } else {
        dec_value(d.drop_last()) * 10 + (if is_digit(d.last()) {
            (d.last() - 48) as nat
        } else {
            0
        })
    }
}

pub proof fn lemma_skip_ws_bounds(s: Seq<u8>, i: int)
    requires
        0 <= i <= s.len(),
    ensures
        i <= skip_ws(s, i) <= s.len(),
        skip_ws(s, i) < s.len() ==> !is_ws(s[skip_ws(s, i)]),
        forall|k: int| i <= k < skip_ws(s, i) ==> is_ws(#[trigger] s[k]),
    decreases s.len() - i,
{
    if i < s.len() && is_ws(s[i]) {
        lemma_skip_ws_bounds(s, i + 1);
    }
}

pub proof fn lemma_digits_end_bounds(s: Seq<u8>, i: int)
    requires
        0 <= i <= s.len(),
    ensures
        i <= digits_end(s, i) <= s.len(),
        digits_end(s, i) < s.len() ==> !is_digit(s[digits_end(s, i)]),
        forall|k: int| i <= k < digits_end(s, i) ==> is_digit(#[trigger] s[k]),
    decreases s.len() - i,
{
    if i < s.len() && is_digit(s[i]) {
        lemma_digits_end_bounds(s, i + 1);
    }
}

/// Skips insignificant whitespace.
fn ws_to(s: &Vec<u8>, i: usize) -> (r: usize)
    requires
        i <= s@.len(),
    ensures
        r == skip_ws(s@, i as int),
        i <= r <= s@.len(),
{
    let mut cur = i;
    while cur < s.len() && (s[cur] == 32 || s[cur] == 9 || s[cur] == 10 || s[cur] == 13)
        invariant
            i <= cur <= s@.len(),
            skip_ws(s@, i as int) == skip_ws(s@, cur as int),
        decreases s@.len() - cur,
    {
        cur = cur + 1;
    }
    cur
}

/// Finds the end of the digit run starting at `i`.
fn digits_to(s: &Vec<u8>, i: usize) -> (r: usize)
    requires
        i <= s@.len(),
    ensures
        r == digits_end(s@, i as int),
        i <= r <= s@.len(),
{
    let mut cur = i;
    while cur < s.len() && 48 <= s[cur] && s[cur] <= 57
        invariant
            i <= cur <= s@.len(),
            digits_end(s@, i as int) == digits_end(s@, cur as int),
        decreases s@.len() - cur,
    {
        cur = cur + 1;
    }
    cur
}

/// A digit run's value never shrinks as the run grows to the right.
pub proof fn lemma_dec_value_prefix(d: Seq<u8>, k: int)
    requires
        0 <= k <= d.len(),
        forall|j: int| 0 <= j < d.len() ==> is_digit(#[trigger] d[j]),
    ensures
        dec_value(d.subrange(0, k)) <= dec_value(d),
    decreases d.len() - k,
{
    if k < d.len() {
        lemma_dec_value_prefix(d, k + 1);
        assert(d.subrange(0, k + 1).drop_last() =~= d.subrange(0, k));
        assert(dec_value(d.subrange(0, k + 1)) == dec_value(d.subrange(0, k)) * 10 + (d.subrange(
            0,
            k + 1,
        ).last() - 48));
    } else {
        assert(d.subrange(0, k) =~= d);
    }
}

/// The value of a decimal digit run at `[j, e)`, when it fits in a `u32`.
#[verifier::opaque]
pub open spec fn spec_parse_u32(s: Seq<u8>, i: int) -> Option<(u32, int)> {
    let j = skip_ws(s, i);
    let e = digits_end(s, j);
    if e > j && dec_value(s.subrange(j, e)) <= u32::MAX {
        Some((dec_value(s.subrange(j, e)) as u32, e))
    } else {
        None
    }
}

/// Parses an unsigned decimal integer field.
fn parse_u32(s: &Vec<u8>, i: usize) -> (r: Option<(u32, usize)>)
    requires
        i <= s@.len(),
    ensures
        match r {
            Some(p) => spec_parse_u32(s@, i as int) == Some((p.0, p.1 as int)) && i <= p.1
                <= s@.len(),
            None => spec_parse_u32(s@, i as int) is None,
        },
{
    proof {
        reveal(spec_parse_u32);
    }
    let j = ws_to(s, i);
    let e = digits_to(s, j);
    if e == j {
        return None;
    }
    proof {
        lemma_digits_end_bounds(s@, j as int);
    }
    let mut acc: u64 = 0;
    let mut cur = j;
    while cur < e
        invariant
            i <= j <= cur <= e <= s@.len(),
            j == skip_ws(s@, i as int),
            e == digits_end(s@, j as int),
            forall|k: int| j <= k < e ==> is_digit(#[trigger] s@[k]),
            acc == dec_value(s@.subrange(j as int, cur as int)),
            acc <= u32::MAX,
        decreases e - cur,
    {
        let d = s[cur];
        proof {
            reveal(spec_parse_u32);
            assert(s@.subrange(j as int, cur + 1).drop_last() =~= s@.subrange(
                j as int,
                cur as int,
            ));
        }
        let next = acc * 10 + ((d - 48) as u64);
        if next > 0xffff_ffff {
            proof {
                let run = s@.subrange(j as int, e as int);
                assert(dec_value(s@.subrange(j as int, cur + 1)) == acc * 10 + (d - 48));
                assert(run.subrange(0, cur + 1 - j) =~= s@.subrange(j as int, cur + 1));
                lemma_dec_value_prefix(run, cur + 1 - j);
                assert(dec_value(run) > u32::MAX);
            }
            return None;
        }
        acc = next;
        cur = cur + 1;
    }
    proof {
        assert(s@.subrange(j as int, e as int) =~= s@.subrange(j as int, cur as int));
    }
    Some((acc as u32, e))
}

/// The end of an optional fraction part (`.` then at least one digit) at `i`.
pub open spec fn frac_end(s: Seq<u8>, i: int) -> Option<int> {
    if 0 <= i < s.len() && s[i] == 46 {
        let d = digits_end(s, i + 1);
        if d > i + 1 {
            Some(d)
        } else {
            None
        }
    } else {
        Some(i)
    }
}

/// The end of an optional exponent part (`e`/`E`, optional sign, digits) at `i`.
pub open spec fn exp_end(s: Seq<u8>, i: int) -> Option<int> {
    if 0 <= i < s.len() && (s[i] == 101 || s[i] == 69) {
        let j = if i + 1 < s.len() && (s[i + 1] == 43 || s[i + 1] == 45) {
            i + 2
        } else {
            i + 1
        };
        let d = digits_end(s, j);
        if d > j {
            Some(d)
        } else {
            None
        }
    } else {
        Some(i)
    }
}

/// The end of the JSON number token starting at `i`: an optional minus, an
/// integer part, an optional fraction, an optional exponent.
pub open spec fn number_end(s: Seq<u8>, i: int) -> Option<int> {
    let a = if 0 <= i < s.len() && s[i] == 45 {
        i + 1
    } else {
        i
    };
    let b = digits_end(s, a);
    if b > a {
        match frac_end(s, b) {
            Some(c) => exp_end(s, c),
            None => None,
        }
    } else {
        None
    }
}

/// A whole byte sequence that is one number token.
pub open spec fn is_number_token(t: Seq<u8>) -> bool {
    number_end(t, 0) == Some(t.len() as int)
}

/// A raw number token taken verbatim from position `i` (after whitespace).
#[verifier::opaque]
pub open spec fn spec_parse_number(s: Seq<u8>, i: int) -> Option<(Seq<u8>, int)> {
    let j = skip_ws(s, i);
    match number_end(s, j) {
        Some(e) => Some((s.subrange(j, e), e)),
        None => None,
    }
}

/// Copies the bytes at `[from, to)` out of `s`.
fn copy_range(s: &Vec<u8>, from: usize, to: usize) -> (r: Vec<u8>)
    requires
        from <= to <= s@.len(),
    ensures
        r@ == s@.subrange(from as int, to as int),
{
    let mut out: Vec<u8> = Vec::new();
    let mut cur = from;
    while cur < to
        invariant
            from <= cur <= to <= s@.len(),
            out@ == s@.subrange(from as int, cur as int),
        decreases to - cur,
    {
        out.push(s[cur]);
        proof {
            assert(s@.subrange(from as int, cur + 1) =~= s@.subrange(from as int, cur as int)
                + seq![s@[cur as int]]);
        }
        cur = cur + 1;
    }
    proof {
        assert(out@ =~= s@.subrange(from as int, to as int));
    }
    out
}

/// Finds the end of the number token at `i`, exactly as `number_end` says.
fn number_to(s: &Vec<u8>, i: usize) -> (r: Option<usize>)
    requires
        i <= s@.len(),
    ensures
        match r {
            Some(e) => number_end(s@, i as int) == Some(e as int) && i <= e <= s@.len(),
            None => number_end(s@, i as int) is None,
        },
{
    let a = if i < s.len() && s[i] == 45 {
        i + 1
    } else {
        i
    };
    let b = digits_to(s, a);
    if b == a {
        return None;
    }
    let c = if b < s.len() && s[b] == 46 {
        let d = digits_to(s, b + 1);
        if d == b + 1 {
            return None;
        }
        d
    } else {
        b
    };
    if c < s.len() && (s[c] == 101 || s[c] == 69) {
        let f = if c + 1 < s.len() && (s[c + 1] == 43 || s[c + 1] == 45) {
            c + 2
        } else {
            c + 1
        };
        let g = digits_to(s, f);
        if g == f {
            return None;
        }
        Some(g)
    } else {
        Some(c)
    }
}

pub proof fn lemma_number_end_bounds(s: Seq<u8>, i: int)
    requires
        0 <= i <= s.len(),
    ensures
        number_end(s, i) matches Some(e) ==> i < e <= s.len(),
{
    let a = if 0 <= i < s.len() && s[i] == 45 {
        i + 1
    } else {
        i
    };
    lemma_digits_end_bounds(s, a);
    let b = digits_end(s, a);
    if b > a {
        if 0 <= b < s.len() && s[b] == 46 {
            lemma_digits_end_bounds(s, b + 1);
        }
        match frac_end(s, b) {
            Some(c) => {
                if 0 <= c < s.len() && (s[c] == 101 || s[c] == 69) {
                    let j2 = if c + 1 < s.len() && (s[c + 1] == 43 || s[c + 1] == 45) {
                        c + 2
                    } else {
                        c + 1
                    };
                    lemma_digits_end_bounds(s, j2);
                }
            },
            None => {},
        }
    }
}

/// Parses a raw number token.
fn parse_number(s: &Vec<u8>, i: usize) -> (r: Option<(JsonNumber, usize)>)
    requires
        i <= s@.len(),
    ensures
        match r {
            Some(p) => spec_parse_number(s@, i as int) == Some((p.0.text@, p.1 as int)) && i
                < p.1 <= s@.len(),
            None => spec_parse_number(s@, i as int) is None,
        },
{
    proof {
        reveal(spec_parse_number);
    }
    let j = ws_to(s, i);
    match number_to(s, j) {
        Some(e) => {
            proof {
                lemma_number_end_bounds(s@, j as int);
            }
            Some((JsonNumber { text: copy_range(s, j, e) }, e))
        },
        None => None,
    }
}

/// What each single-character escape stands for.
pub open spec fn unescape_byte(b: u8) -> Option<u8> {
    if b == 34 {
        Some(34u8)
    } else if b == 92 {
        Some(92u8)
    } else if b == 47 {
        Some(47u8)
    } else if b == 110 {
        Some(10u8)
    } else if b == 116 {
        Some(9u8)
    } else if b == 114 {
        Some(13u8)
    } else if b == 98 {
        Some(8u8)
    } else if b == 102 {
        Some(12u8)
    } else {
        None
    }
}

/// The body of a string literal from just after the opening quote: the
/// unescaped content, and the position just after the closing quote. Raw
/// control bytes and unknown escapes are rejected.
pub open spec fn parse_str_body(s: Seq<u8>, i: int) -> Option<(Seq<u8>, int)>
    decreases s.len() - i,
{
    if !(0 <= i < s.len()) {
        None
    } else if s[i] == 34 {
        Some((Seq::empty(), i + 1))
    } else if s[i] == 92 {
        if i + 1 < s.len() {
            match unescape_byte(s[i + 1]) {
                Some(c) => match parse_str_body(s, i + 2) {
                    Some(p) => Some((seq![c] + p.0, p.1)),
                    None => None,
                },
                None => None,
            }
        } else {
            None
        }
    } else if s[i] < 32 {
        None
    } else {
        match parse_str_body(s, i + 1) {
            Some(p) => Some((seq![s[i]] + p.0, p.1)),
            None => None,
        }
    }
}

/// A string literal at `i` (after whitespace): unescaped content and the
/// position after its closing quote.
#[verifier::opaque]
pub open spec fn spec_parse_string(s: Seq<u8>, i: int) -> Option<(Seq<u8>, int)> {
    let j = skip_ws(s, i);
    if 0 <= j < s.len() && s[j] == 34 {
        parse_str_body(s, j + 1)
    } else {
        None
    }
}

pub proof fn lemma_parse_str_body_bounds(s: Seq<u8>, i: int)
    ensures
        parse_str_body(s, i) matches Some(p) ==> i < p.1 <= s.len(),
    decreases s.len() - i,
{
    if 0 <= i < s.len() {
        if s[i] == 92 {
            if i + 1 < s.len() {
                lemma_parse_str_body_bounds(s, i + 2);
            }
        } else if s[i] != 34 && s[i] >= 32 {
            lemma_parse_str_body_bounds(s, i + 1);
        }
    }
}

/// Parses a string literal.
fn parse_string(s: &Vec<u8>, i: usize) -> (r: Option<(Vec<u8>, usize)>)
    requires
        i <= s@.len(),
    ensures
        match r {
            Some(p) => spec_parse_string(s@, i as int) == Some((p.0@, p.1 as int)) && i < p.1
                <= s@.len(),
            None => spec_parse_string(s@, i as int) is None,
        },
{
    proof {
        reveal(spec_parse_string);
    }
    let j = ws_to(s, i);
    if j >= s.len() || s[j] != 34 {
        return None;
    }
    let mut acc: Vec<u8> = Vec::new();
    let mut cur = j + 1;
    loop
        invariant
            i <= j < s@.len(),
            j == skip_ws(s@, i as int),
            s@[j as int] == 34,
            j + 1 <= cur <= s@.len(),
            parse_str_body(s@, j + 1) == (match parse_str_body(s@, cur as int) {
                Some(p) => Some((acc@ + p.0, p.1)),
                None => None::<(Seq<u8>, int)>,
            }),
        decreases s@.len() - cur,
    {
        proof {
            reveal(spec_parse_string);
            lemma_parse_str_body_bounds(s@, j + 1);
        }
        if cur >= s.len() {
            return None;
        }
        let b = s[cur];
        if b == 34 {
            proof {
                assert(acc@ + Seq::<u8>::empty() =~= acc@);
            }
            return Some((acc, cur + 1));
        } else if b == 92 {
            if cur + 1 >= s.len() {
                return None;
            }
            let n = s[cur + 1];
            let c: u8 = if n == 34 {
                34
            } else if n == 92 {
                92
            } else if n == 47 {
                47
            } else if n == 110 {
                10
            } else if n == 116 {
                9
            } else if n == 114 {
                13
            } else if n == 98 {
                8
            } else if n == 102 {
                12
            } else {
                return None;
            };
            let ghost before = acc@;
            acc.push(c);
            proof {
                assert(parse_str_body(s@, cur + 2) matches Some(p) ==> before + (seq![c] + p.0)
                    =~= (before + seq![c]) + p.0);
            }
            cur = cur + 2;
        } else if b < 32 {
            return None;
        } else {
            let ghost before = acc@;
            acc.push(b);
            proof {
                assert(parse_str_body(s@, cur + 1) matches Some(p) ==> before + (seq![b] + p.0)
                    =~= (before + seq![b]) + p.0);
            }
            cur = cur + 1;
        }
    }
}

/// The bytes of the object key `start`.
pub open spec fn lit_start() -> Seq<u8> {
    seq![115u8, 116, 97, 114, 116]
}

/// Builds the key `start` for matching and printing.
fn key_start() -> (r: Vec<u8>)
    ensures
        r@ == lit_start(),
{
    let mut v: Vec<u8> = Vec::new();
    v.push(115);
    v.push(116);
    v.push(97);
    v.push(114);
    v.push(116);
    proof {
        assert(v@ =~= lit_start());
    }
    v
}

/// The bytes of the object key `end`.
pub open spec fn lit_end() -> Seq<u8> {
    seq![101u8, 110, 100]
}

/// Builds the key `end` for matching and printing.
fn key_end() -> (r: Vec<u8>)
    ensures
        r@ == lit_end(),
{
    let mut v: Vec<u8> = Vec::new();
    v.push(101);
    v.push(110);
    v.push(100);
    proof {
        assert(v@ =~= lit_end());
    }
    v
}

/// The bytes of the object key `text`.
pub open spec fn lit_text() -> Seq<u8> {
    seq![116u8, 101, 120, 116]
}

/// Builds the key `text` for matching and printing.
fn key_text() -> (r: Vec<u8>)
    ensures
        r@ == lit_text(),
{
    let mut v: Vec<u8> = Vec::new();
    v.push(116);
    v.push(101);
    v.push(120);
    v.push(116);
    proof {
        assert(v@ =~= lit_text());
    }
    v
}

/// The bytes of the object key `confidence`.
pub open spec fn lit_confidence() -> Seq<u8> {
    seq![99u8, 111, 110, 102, 105, 100, 101, 110, 99, 101]
}

/// Builds the key `confidence` for matching and printing.
fn key_confidence() -> (r: Vec<u8>)
    ensures
        r@ == lit_confidence(),
{
    let mut v: Vec<u8> = Vec::new();
    v.push(99);
    v.push(111);
    v.push(110);
    v.push(102);
    v.push(105);
    v.push(100);
    v.push(101);
    v.push(110);
    v.push(99);
    v.push(101);
    proof {
        assert(v@ =~= lit_confidence());
    }
    v
}

/// The bytes of the object key `id`.
pub open spec fn lit_id() -> Seq<u8> {
    seq![105u8, 100]
}

/// Builds the key `id` for matching and printing.
fn key_id() -> (r: Vec<u8>)
    ensures
        r@ == lit_id(),
{
    let mut v: Vec<u8> = Vec::new();
    v.push(105);
    v.push(100);
    proof {
        assert(v@ =~= lit_id());
    }
    v
}

/// The bytes of the object key `seek`.
pub open spec fn lit_seek() -> Seq<u8> {
    seq![115u8, 101, 101, 107]
}

/// Builds the key `seek` for matching and printing.
fn key_seek() -> (r: Vec<u8>)
    ensures
        r@ == lit_seek(),
{
    let mut v: Vec<u8> = Vec::new();
    v.push(115);
    v.push(101);
    v.push(101);
    v.push(107);
    proof {
        assert(v@ =~= lit_seek());
    }
    v
}

/// The bytes of the object key `tokens`.
pub open spec fn lit_tokens() -> Seq<u8> {
    seq![116u8, 111, 107, 101, 110, 115]
}

/// Builds the key `tokens` for matching and printing.
fn key_tokens() -> (r: Vec<u8>)
    ensures
        r@ == lit_tokens(),
{
    let mut v: Vec<u8> = Vec::new();
    v.push(116);
    v.push(111);
    v.push(107);
    v.push(101);
    v.push(110);
    v.push(115);
    proof {
        assert(v@ =~= lit_tokens());
    }
    v
}

/// The bytes of the object key `words`.
pub open spec fn lit_words() -> Seq<u8> {
    seq![119u8, 111, 114, 100, 115]
}

/// Builds the key `words` for matching and printing.
fn key_words() -> (r: Vec<u8>)
    ensures
        r@ == lit_words(),
{
    let mut v: Vec<u8> = Vec::new();
    v.push(119);
    v.push(111);
    v.push(114);
    v.push(100);
    v.push(115);
    proof {
        assert(v@ =~= lit_words());
    }
    v
}

/// The bytes of the object key `segments`.
pub open spec fn lit_segments() -> Seq<u8> {
    seq![115u8, 101, 103, 109, 101, 110, 116, 115]
}

/// Builds the key `segments` for matching and printing.
fn key_segments() -> (r: Vec<u8>)
    ensures
        r@ == lit_segments(),
{
    let mut v: Vec<u8> = Vec::new();
    v.push(115);
    v.push(101);
    v.push(103);
    v.push(109);
    v.push(101);
    v.push(110);
    v.push(116);
    v.push(115);
    proof {
        assert(v@ =~= lit_segments());
    }
    v
}

/// One expected punctuation byte at `i`, after whitespace.
pub open spec fn spec_match_byte(s: Seq<u8>, i: int, b: u8) -> Option<int> {
    let j = skip_ws(s, i);
    if 0 <= j < s.len() && s[j] == b {
        Some(j + 1)
    } else {
        None
    }
}

/// Matches one punctuation byte.
fn match_byte(s: &Vec<u8>, i: usize, b: u8) -> (r: Option<usize>)
    requires
        i <= s@.len(),
    ensures
        match r {
            Some(e) => spec_match_byte(s@, i as int, b) == Some(e as int) && i < e <= s@.len(),
            None => spec_match_byte(s@, i as int, b) is None,
        },
{
    let j = ws_to(s, i);
    if j < s.len() && s[j] == b {
        Some(j + 1)
    } else {
        None
    }
}

/// Whether two byte vectors hold the same bytes.
fn eq_bytes(a: &Vec<u8>, b: &Vec<u8>) -> (r: bool)
    ensures
        r == (a@ == b@),
{
    if a.len() != b.len() {
        return false;
    }
    let mut k: usize = 0;
    while k < a.len()
        invariant
            k <= a@.len(),
            a@.len() == b@.len(),
            forall|t: int| 0 <= t < k ==> a@[t] == b@[t],
        decreases a@.len() - k,
    {
        if a[k] != b[k] {
            return false;
        }
        k = k + 1;
    }
    proof {
        assert(a@ =~= b@);
    }
    true
}

/// One JSON value of any shape, skipped without interpretation, starting at
/// a non-whitespace byte: a string, an object, an array, a number, or one
/// of the three literal words. Inside a skipped object or array, commas and
/// colons are treated alike as separators.
pub open spec fn spec_skip_value(s: Seq<u8>, i: int) -> Option<int>
    decreases s.len() - i, 0int,
{
    if !(0 <= i < s.len()) {
        None
    } else if s[i] == 34 {
        match parse_str_body(s, i + 1) {
            Some(p) => Some(p.1),
            None => None,
        }
    } else if s[i] == 123 {
        spec_skip_items(s, i + 1, 125)
    } else if s[i] == 91 {
        spec_skip_items(s, i + 1, 93)
    } else if s[i] == 116 {
        if i + 4 <= s.len() && s.subrange(i, i + 4) == seq![116u8, 114u8, 117u8, 101u8] {
            Some(i + 4)
        } else {
            None
        }
    } else if s[i] == 102 {
        if i + 5 <= s.len() && s.subrange(i, i + 5) == seq![102u8, 97u8, 108u8, 115u8, 101u8] {
            Some(i + 5)
        } else {
            None
        }
    } else if s[i] == 110 {
        if i + 4 <= s.len() && s.subrange(i, i + 4) == seq![110u8, 117u8, 108u8, 108u8] {
            Some(i + 4)
        } else {
            None
        }
    } else {
        number_end(s, i)
    }
}

/// The inside of a skipped object or array, up to and past its closing
/// byte.
pub open spec fn spec_skip_items(s: Seq<u8>, i: int, close: u8) -> Option<int>
    decreases s.len() - i, 1int,
{
    if !(0 <= i < s.len()) {
        None
    } else if is_ws(s[i]) {
        spec_skip_items(s, i + 1, close)
    } else if s[i] == close {
        Some(i + 1)
    } else if s[i] == 44 || s[i] == 58 {
        spec_skip_items(s, i + 1, close)
    } else {
        match spec_skip_value(s, i) {
            Some(e) => if i < e <= s.len() {
                spec_skip_items(s, e, close)
            } else {
                None
            },
            None => None,
        }
    }
}

/// An unknown member's value after its colon: whitespace, then one value.
#[verifier::opaque]
pub open spec fn spec_skip_member_value(s: Seq<u8>, i: int) -> Option<int> {
    spec_skip_value(s, skip_ws(s, i))
}

/// Skips one value, exactly as `spec_skip_value` says.
fn skip_value(s: &Vec<u8>, i: usize) -> (r: Option<usize>)
    requires
        i <= s@.len(),
    ensures
        (match r {
            Some(e) => spec_skip_value(s@, i as int) == Some(e as int) && i < e <= s@.len(),
            None => spec_skip_value(s@, i as int) is None,
        }),
    decreases s@.len() - i, 0int,
{
    if i >= s.len() {
        return None;
    }
    let b = s[i];
    if b == 34 {
        match parse_string_body_from(s, i) {
            Some(e) => Some(e),
            None => None,
        }
    } else if b == 123 {
        skip_items(s, i + 1, 125)
    } else if b == 91 {
        skip_items(s, i + 1, 93)
    } else if b == 116 {
        if s.len() - i >= 4 && s[i + 1] == 114 && s[i + 2] == 117 && s[i + 3] == 101 {
            proof {
                assert(s@.subrange(i as int, i + 4) =~= seq![116u8, 114u8, 117u8, 101u8]);
            }
            Some(i + 4)
        } else {
            proof {
                if i + 4 <= s@.len() {
                    assert(s@.subrange(i as int, i + 4)[1] == s@[i + 1]);
                    assert(s@.subrange(i as int, i + 4)[2] == s@[i + 2]);
                    assert(s@.subrange(i as int, i + 4)[3] == s@[i + 3]);
                }
            }
            None
        }
    } else if b == 102 {
        if s.len() - i >= 5 && s[i + 1] == 97 && s[i + 2] == 108 && s[i + 3] == 115 && s[i + 4]
            == 101 {
            proof {
                assert(s@.subrange(i as int, i + 5) =~= seq![102u8, 97u8, 108u8, 115u8, 101u8]);
            }
            Some(i + 5)
        } else {
            proof {
                if i + 5 <= s@.len() {
                    assert(s@.subrange(i as int, i + 5)[1] == s@[i + 1]);
                    assert(s@.subrange(i as int, i + 5)[2] == s@[i + 2]);
                    assert(s@.subrange(i as int, i + 5)[3] == s@[i + 3]);
                    assert(s@.subrange(i as int, i + 5)[4] == s@[i + 4]);
                }
            }
            None
        }
    } else if b == 110 {
        if s.len() - i >= 4 && s[i + 1] == 117 && s[i + 2] == 108 && s[i + 3] == 108 {
            proof {
                assert(s@.subrange(i as int, i + 4) =~= seq![110u8, 117u8, 108u8, 108u8]);
            }
            Some(i + 4)
        } else {
            proof {
                if i + 4 <= s@.len() {
                    assert(s@.subrange(i as int, i + 4)[1] == s@[i + 1]);
                    assert(s@.subrange(i as int, i + 4)[2] == s@[i + 2]);
                    assert(s@.subrange(i as int, i + 4)[3] == s@[i + 3]);
                }
            }
            None
        }
    } else {
        match number_to(s, i) {
            Some(e) => {
                proof {
                    lemma_number_end_bounds(s@, i as int);
                }
                Some(e)
            },
            None => None,
        }
    }
}

/// Consumes a string literal at `i` and returns the position after its
/// closing quote, discarding the content.
fn parse_string_body_from(s: &Vec<u8>, i: usize) -> (r: Option<usize>)
    requires
        i < s@.len(),
        s@[i as int] == 34,
    ensures
        (match r {
            Some(e) => parse_str_body(s@, i + 1) matches Some(p) && p.1 == e as int && i < e
                <= s@.len(),
            None => parse_str_body(s@, i + 1) is None,
        }),
{
    proof {
        reveal(spec_parse_string);
    }
    match parse_string(s, i) {
        Some(p) => {
            proof {
                assert(skip_ws(s@, i as int) == i);
            }
            Some(p.1)
        },
        None => {
            proof {
                assert(skip_ws(s@, i as int) == i);
            }
            None
        },
    }
}

/// Skips the inside of an object or array, exactly as `spec_skip_items`
/// says.
fn skip_items(s: &Vec<u8>, i: usize, close: u8) -> (r: Option<usize>)
    requires
        i <= s@.len(),
    ensures
        (match r {
            Some(e) => spec_skip_items(s@, i as int, close) == Some(e as int) && i < e
                <= s@.len(),
            None => spec_skip_items(s@, i as int, close) is None,
        }),
    decreases s@.len() - i, 1int,
{
    if i >= s.len() {
        return None;
    }
    let b = s[i];
    if b == 32 || b == 9 || b == 10 || b == 13 {
        skip_items(s, i + 1, close)
    } else if b == close {
        Some(i + 1)
    } else if b == 44 || b == 58 {
        skip_items(s, i + 1, close)
    } else {
        match skip_value(s, i) {
            Some(e) => skip_items(s, e, close),
            None => None,
        }
    }
}

/// Skips an unknown member's value, exactly as `spec_skip_member_value`
/// says.
fn skip_member_value(s: &Vec<u8>, i: usize) -> (r: Option<usize>)
    requires
        i <= s@.len(),
    ensures
        (match r {
            Some(e) => spec_skip_member_value(s@, i as int) == Some(e as int) && i < e
                <= s@.len(),
            None => spec_skip_member_value(s@, i as int) is None,
        }),
{
    proof {
        reveal(spec_skip_member_value);
    }
    let j = ws_to(s, i);
    skip_value(s, j)
}

/// The model of an optional raw number field.
pub open spec fn num_field_view(o: Option<JsonNumber>) -> Option<Seq<u8>> {
    match o {
        Some(n) => Some(n.text@),
        None => None,
    }
}

/// The model of an optional byte-string field.
pub open spec fn bytes_field_view(o: Option<Vec<u8>>) -> Option<Seq<u8>> {
    match o {
        Some(v) => Some(v@),
        None => None,
    }
}

/// The model of an optional token-id field.
pub open spec fn tokens_field_view(o: Option<Vec<u32>>) -> Option<Seq<u32>> {
    match o {
        Some(v) => Some(v@),
        None => None,
    }
}

/// The model of an optional word-list field.
pub open spec fn words_field_view(o: Option<Vec<WhisperResultWord>>) -> Option<Seq<WordV>> {
    match o {
        Some(v) => Some(words_view(v@)),
        None => None,
    }
}

/// One element of the `words` array: an object holding the word's timing,
/// text and confidence, members in any order, unknown members skipped.
#[verifier::opaque]
pub open spec fn spec_parse_word(s: Seq<u8>, i: int) -> Option<(WordV, int)> {
    match spec_match_byte(s, i, 123) {
        None => None,
        Some(i1) => spec_word_members(s, i1, false, None, None, None, None),
    }
}

/// The members of a word object from `i`, with the fields seen so far.
/// `need_sep` says a member was just read, so a comma or the closing brace
/// must come next. A duplicate member, or a closing brace while a required
/// field is still missing, fails the parse.
#[verifier::opaque]
pub open spec fn spec_word_members(
    s: Seq<u8>,
    i: int,
    need_sep: bool,
    start: Option<Seq<u8>>,
    end: Option<Seq<u8>>,
    text: Option<Seq<u8>>,
    confidence: Option<Seq<u8>>,
) -> Option<(WordV, int)>
    decreases s.len() - i,
{
    if !(0 <= i < s.len()) {
        None
    } else if is_ws(s[i]) {
        spec_word_members(s, i + 1, need_sep, start, end, text, confidence)
    } else if s[i] == 125 {
        if need_sep {
            match (start, end, text, confidence) {
                (Some(st), Some(en), Some(tx), Some(cf)) => Some(
                    (WordV { start: st, end: en, text: tx, confidence: cf }, i + 1),
                ),
                _ => None,
            }
        } else {
            None
        }
    } else if need_sep {
        if s[i] == 44 {
            spec_word_members(s, i + 1, false, start, end, text, confidence)
        } else {
            None
        }
    } else {
        match spec_parse_string(s, i) {
            None => None,
            Some((key, i2)) => match spec_match_byte(s, i2, 58) {
                None => None,
                Some(i3) => if key == lit_start() {
                    if start is Some {
                        None
                    } else {
                        match spec_parse_number(s, i3) {
                            None => None,
                            Some((v, i4)) => if i < i4 <= s.len() {
                                spec_word_members(s, i4, true, Some(v), end, text, confidence)
                            } else {
                                None
                            },
                        }
                    }
                } else if key == lit_end() {
                    if end is Some {
                        None
                    } else {
                        match spec_parse_number(s, i3) {
                            None => None,
                            Some((v, i4)) => if i < i4 <= s.len() {
                                spec_word_members(s, i4, true, start, Some(v), text, confidence)
                            } else {
                                None
                            },
                        }
                    }
                } else if key == lit_text() {
                    if text is Some {
                        None
                    } else {
                        match spec_parse_string(s, i3) {
                            None => None,
                            Some((v, i4)) => if i < i4 <= s.len() {
                                spec_word_members(s, i4, true, start, end, Some(v), confidence)
                            } else {
                                None
                            },
                        }
                    }
                } else if key == lit_confidence() {
                    if confidence is Some {
                        None
                    } else {
                        match spec_parse_number(s, i3) {
                            None => None,
                            Some((v, i4)) => if i < i4 <= s.len() {
                                spec_word_members(s, i4, true, start, end, text, Some(v))
                            } else {
                                None
                            },
                        }
                    }
                } else {
                    match spec_skip_member_value(s, i3) {
                        None => None,
                        Some(e) => if i < e <= s.len() {
                            spec_word_members(s, e, true, start, end, text, confidence)
                        } else {
                            None
                        },
                    }
                },
            },
        }
    }
}

/// Parses one word object.
fn parse_word(s: &Vec<u8>, i: usize) -> (r: Option<(WhisperResultWord, usize)>)
    requires
        i <= s@.len(),
    ensures
        (match r {
            Some(p) => spec_parse_word(s@, i as int) == Some((p.0@, p.1 as int)) && i < p.1
                <= s@.len(),
            None => spec_parse_word(s@, i as int) is None,
        }),
{
    proof {
        reveal(spec_parse_word);
    }
    let i1 = match match_byte(s, i, 123) {
        Some(x) => x,
        None => {
            return None;
        },
    };
    word_members(s, i1, false, None, None, None, None)
}

/// Collects the members of a word object, exactly as `spec_word_members`
/// says.
fn word_members(
    s: &Vec<u8>,
    i: usize,
    need_sep: bool,
    start: Option<JsonNumber>,
    end: Option<JsonNumber>,
    text: Option<Vec<u8>>,
    confidence: Option<JsonNumber>,
) -> (r: Option<(WhisperResultWord, usize)>)
    requires
        i <= s@.len(),
    ensures
        (match r {
            Some(p) => spec_word_members(
                s@,
                i as int,
                need_sep,
                num_field_view(start),
                num_field_view(end),
                bytes_field_view(text),
                num_field_view(confidence),
            ) == Some((p.0@, p.1 as int)) && i < p.1 <= s@.len(),
            None => spec_word_members(
                s@,
                i as int,
                need_sep,
                num_field_view(start),
                num_field_view(end),
                bytes_field_view(text),
                num_field_view(confidence),
            ) is None,
        }),
    decreases s@.len() - i,
{
    proof {
        reveal(spec_word_members);
        reveal(spec_skip_member_value);
    }
    if i >= s.len() {
        return None;
    }
    let b = s[i];
    if b == 32 || b == 9 || b == 10 || b == 13 {
        return word_members(s, i + 1, need_sep, start, end, text, confidence);
    }
    if b == 125 {
        if need_sep {
            match (start, end, text, confidence) {
                (Some(st), Some(en), Some(tx), Some(cf)) => {
                    return Some(
                        (WhisperResultWord { start: st, end: en, text: tx, confidence: cf }, i + 1),
                    );
                },
                _ => {
                    return None;
                },
            }
        } else {
            return None;
        }
    }
    if need_sep {
        if b == 44 {
            return word_members(s, i + 1, false, start, end, text, confidence);
        }
        return None;
    }
    let (key, i2) = match parse_string(s, i) {
        Some(p) => p,
        None => {
            return None;
        },
    };
    let i3 = match match_byte(s, i2, 58) {
        Some(x) => x,
        None => {
            return None;
        },
    };
    if eq_bytes(&key, &key_start()) {
        if start.is_some() {
            return None;
        }
        let (v, i4) = match parse_number(s, i3) {
            Some(p) => p,
            None => {
                return None;
            },
        };
        return word_members(s, i4, true, Some(v), end, text, confidence);
    }
    if eq_bytes(&key, &key_end()) {
        if end.is_some() {
            return None;
        }
        let (v, i4) = match parse_number(s, i3) {
            Some(p) => p,
            None => {
                return None;
            },
        };
        return word_members(s, i4, true, start, Some(v), text, confidence);
    }
    if eq_bytes(&key, &key_text()) {
        if text.is_some() {
            return None;
        }
        let (v, i4) = match parse_string(s, i3) {
            Some(p) => p,
            None => {
                return None;
            },
        };
        return word_members(s, i4, true, start, end, Some(v), confidence);
    }
    if eq_bytes(&key, &key_confidence()) {
        if confidence.is_some() {
            return None;
        }
        let (v, i4) = match parse_number(s, i3) {
            Some(p) => p,
            None => {
                return None;
            },
        };
        return word_members(s, i4, true, start, end, text, Some(v));
    }
    let e = match skip_member_value(s, i3) {
        Some(x) => x,
        None => {
            return None;
        },
    };
    word_members(s, e, true, start, end, text, confidence)
}

/// The tail of the `words` array after its first element: either the closing
/// bracket, or a comma and a further element, repeated.
pub open spec fn spec_parse_words_rest(s: Seq<u8>, i: int) -> Option<(Seq<WordV>, int)>
    decreases s.len() - i,
{
    let j = skip_ws(s, i);
    if 0 <= j < s.len() && s[j] == 93 {
        Some((Seq::empty(), j + 1))
    } else if 0 <= j < s.len() && s[j] == 44 {
        match spec_parse_word(s, j + 1) {
            Some(p) => if i < p.1 <= s.len() {
                match spec_parse_words_rest(s, p.1) {
                    Some(q) => Some((seq![p.0] + q.0, q.1)),
                    None => None,
                }
            } else {
                None
            },
            None => None,
        }
    } else {
        None
    }
}

/// The `words` array of a segment.
pub open spec fn spec_parse_words(s: Seq<u8>, i: int) -> Option<(Seq<WordV>, int)> {
    match spec_match_byte(s, i, 91) {
        None => None,
        Some(i1) => {
            let j = skip_ws(s, i1);
            if 0 <= j < s.len() && s[j] == 93 {
                Some((Seq::empty(), j + 1))
            } else {
                match spec_parse_word(s, i1) {
                    Some(p) => match spec_parse_words_rest(s, p.1) {
                        Some(q) => Some((seq![p.0] + q.0, q.1)),
                        None => None,
                    },
                    None => None,
                }
            }
        },
    }
}

/// Parses the `words` array.
fn parse_words(s: &Vec<u8>, i: usize) -> (r: Option<(Vec<WhisperResultWord>, usize)>)
    requires
        i <= s@.len(),
    ensures
        match r {
            Some(p) => spec_parse_words(s@, i as int) == Some((words_view(p.0@), p.1 as int)) && i
                < p.1 <= s@.len(),
            None => spec_parse_words(s@, i as int) is None,
        },
{
    let i1 = match match_byte(s, i, 91) {
        Some(x) => x,
        None => {
            return None;
        },
    };
    let j0 = ws_to(s, i1);
    if j0 < s.len() && s[j0] == 93 {
        let out: Vec<WhisperResultWord> = Vec::new();
        proof {
            assert(words_view(out@) =~= Seq::<WordV>::empty());
        }
        return Some((out, j0 + 1));
    }
    let (x0, k0) = match parse_word(s, i1) {
        Some(p) => p,
        None => {
            return None;
        },
    };
    let mut acc: Vec<WhisperResultWord> = Vec::new();
    acc.push(x0);
    let mut cur = k0;
    proof {
        assert(words_view(acc@) =~= seq![x0@]);
    }
    loop
        invariant
            i <= cur <= s@.len(),
            spec_parse_words(s@, i as int) == (match spec_parse_words_rest(s@, cur as int) {
                Some(q) => Some((words_view(acc@) + q.0, q.1)),
                None => None::<(Seq<WordV>, int)>,
            }),
        decreases s@.len() - cur,
    {
        let j = ws_to(s, cur);
        if j < s.len() && s[j] == 93 {
            proof {
                assert(words_view(acc@) + Seq::<WordV>::empty() =~= words_view(acc@));
            }
            return Some((acc, j + 1));
        }
        if j >= s.len() || s[j] != 44 {
            return None;
        }
        let (x, k) = match parse_word(s, j + 1) {
            Some(p) => p,
            None => {
                return None;
            },
        };
        let ghost before = words_view(acc@);
        acc.push(x);
        proof {
            assert(words_view(acc@) =~= before + seq![x@]);
            assert(spec_parse_words_rest(s@, k as int) matches Some(q) ==> before + (seq![x@]
                + q.0) =~= (before + seq![x@]) + q.0);
        }
        cur = k;
    }
}

/// The tail of the `tokens` array after its first element: either the closing
/// bracket, or a comma and a further element, repeated.
pub open spec fn spec_parse_tokens_rest(s: Seq<u8>, i: int) -> Option<(Seq<u32>, int)>
    decreases s.len() - i,
{
    let j = skip_ws(s, i);
    if 0 <= j < s.len() && s[j] == 93 {
        Some((Seq::empty(), j + 1))
    } else if 0 <= j < s.len() && s[j] == 44 {
        match spec_parse_u32(s, j + 1) {
            Some(p) => if i < p.1 <= s.len() {
                match spec_parse_tokens_rest(s, p.1) {
                    Some(q) => Some((seq![p.0] + q.0, q.1)),
                    None => None,
                }
            } else {
                None
            },
            None => None,
        }
    } else {
        None
    }
}

/// The `tokens` array of a segment.
pub open spec fn spec_parse_tokens(s: Seq<u8>, i: int) -> Option<(Seq<u32>, int)> {
    match spec_match_byte(s, i, 91) {
        None => None,
        Some(i1) => {
            let j = skip_ws(s, i1);
            if 0 <= j < s.len() && s[j] == 93 {
                Some((Seq::empty(), j + 1))
            } else {
                match spec_parse_u32(s, i1) {
                    Some(p) => match spec_parse_tokens_rest(s, p.1) {
                        Some(q) => Some((seq![p.0] + q.0, q.1)),
                        None => None,
                    },
                    None => None,
                }
            }
        },
    }
}

/// Parses the `tokens` array.
fn parse_tokens(s: &Vec<u8>, i: usize) -> (r: Option<(Vec<u32>, usize)>)
    requires
        i <= s@.len(),
    ensures
        match r {
            Some(p) => spec_parse_tokens(s@, i as int) == Some((p.0@, p.1 as int)) && i
                < p.1 <= s@.len(),
            None => spec_parse_tokens(s@, i as int) is None,
        },
{
    let i1 = match match_byte(s, i, 91) {
        Some(x) => x,
        None => {
            return None;
        },
    };
    let j0 = ws_to(s, i1);
    if j0 < s.len() && s[j0] == 93 {
        let out: Vec<u32> = Vec::new();
        proof {
            assert(out@ =~= Seq::<u32>::empty());
        }
        return Some((out, j0 + 1));
    }
    let (x0, k0) = match parse_u32(s, i1) {
        Some(p) => p,
        None => {
            return None;
        },
    };
    let mut acc: Vec<u32> = Vec::new();
    acc.push(x0);
    let mut cur = k0;
    proof {
        assert(acc@ =~= seq![x0]);
    }
    loop
        invariant
            i <= cur <= s@.len(),
            spec_parse_tokens(s@, i as int) == (match spec_parse_tokens_rest(s@, cur as int) {
                Some(q) => Some((acc@ + q.0, q.1)),
                None => None::<(Seq<u32>, int)>,
            }),
        decreases s@.len() - cur,
    {
        let j = ws_to(s, cur);
        if j < s.len() && s[j] == 93 {
            proof {
                assert(acc@ + Seq::<u32>::empty() =~= acc@);
            }
            return Some((acc, j + 1));
        }
        if j >= s.len() || s[j] != 44 {
            return None;
        }
        let (x, k) = match parse_u32(s, j + 1) {
            Some(p) => p,
            None => {
                return None;
            },
        };
        let ghost before = acc@;
        acc.push(x);
        proof {
            assert(acc@ =~= before + seq![x]);
            assert(spec_parse_tokens_rest(s@, k as int) matches Some(q) ==> before + (seq![x]
                + q.0) =~= (before + seq![x]) + q.0);
        }
        cur = k;
    }
}

/// One element of the `segments` array: an object holding the segment's
/// index, seek offset, timing, text, token ids, confidence and words,
/// members in any order, unknown members skipped.
#[verifier::opaque]
pub open spec fn spec_parse_segment(s: Seq<u8>, i: int) -> Option<(SegmentV, int)> {
    match spec_match_byte(s, i, 123) {
        None => None,
        Some(i1) => spec_segment_members(s, i1, false, None, None, None, None, None, None, None, None),
    }
}

/// The members of a segment object from `i`, with the fields seen so far.
#[verifier::opaque]
pub open spec fn spec_segment_members(
    s: Seq<u8>,
    i: int,
    need_sep: bool,
    id: Option<u32>,
    seek: Option<u32>,
    start: Option<Seq<u8>>,
    end: Option<Seq<u8>>,
    text: Option<Seq<u8>>,
    tokens: Option<Seq<u32>>,
    confidence: Option<Seq<u8>>,
    words: Option<Seq<WordV>>,
) -> Option<(SegmentV, int)>
    decreases s.len() - i,
{
    if !(0 <= i < s.len()) {
        None
    } else if is_ws(s[i]) {
        spec_segment_members(s, i + 1, need_sep, id, seek, start, end, text, tokens, confidence, words)
    } else if s[i] == 125 {
        if need_sep {
            match (id, seek, start, end, text, tokens, confidence, words) {
                (
                    Some(idv),
                    Some(sk),
                    Some(st),
                    Some(en),
                    Some(tx),
                    Some(tk),
                    Some(cf),
                    Some(ws),
                ) => Some(
                    (
                        SegmentV {
                            id: idv,
                            seek: sk,
                            start: st,
                            end: en,
                            text: tx,
                            tokens: tk,
                            confidence: cf,
                            words: ws,
                        },
                        i + 1,
                    ),
                ),
                _ => None,
            }
        } else {
            None
        }
    } else if need_sep {
        if s[i] == 44 {
            spec_segment_members(s, i + 1, false, id, seek, start, end, text, tokens, confidence, words)
        } else {
            None
        }
    } else {
        match spec_parse_string(s, i) {
            None => None,
            Some((key, i2)) => match spec_match_byte(s, i2, 58) {
                None => None,
                Some(i3) => if key == lit_id() {
                    if id is Some {
                        None
                    } else {
                        match spec_parse_u32(s, i3) {
                            None => None,
                            Some((v, i4)) => if i < i4 <= s.len() {
                                spec_segment_members(s, i4, true, Some(v), seek, start, end, text, tokens, confidence, words)
                            } else {
                                None
                            },
                        }
                    }
                } else if key == lit_seek() {
                    if seek is Some {
                        None
                    } else {
                        match spec_parse_u32(s, i3) {
                            None => None,
                            Some((v, i4)) => if i < i4 <= s.len() {
                                spec_segment_members(s, i4, true, id, Some(v), start, end, text, tokens, confidence, words)
                            } else {
                                None
                            },
                        }
                    }
                } else if key == lit_start() {
                    if start is Some {
                        None
                    } else {
                        match spec_parse_number(s, i3) {
                            None => None,
                            Some((v, i4)) => if i < i4 <= s.len() {
                                spec_segment_members(s, i4, true, id, seek, Some(v), end, text, tokens, confidence, words)
                            } else {
                                None
                            },
                        }
                    }
                } else if key == lit_end() {
                    if end is Some {
                        None
                    } else {
                        match spec_parse_number(s, i3) {
                            None => None,
                            Some((v, i4)) => if i < i4 <= s.len() {
                                spec_segment_members(s, i4, true, id, seek, start, Some(v), text, tokens, confidence, words)
                            } else {
                                None
                            },
                        }
                    }
                } else if key == lit_text() {
                    if text is Some {
                        None
                    } else {
                        match spec_parse_string(s, i3) {
                            None => None,
                            Some((v, i4)) => if i < i4 <= s.len() {
                                spec_segment_members(s, i4, true, id, seek, start, end, Some(v), tokens, confidence, words)
                            } else {
                                None
                            },
                        }
                    }
                } else if key == lit_tokens() {
                    if tokens is Some {
                        None
                    } else {
                        match spec_parse_tokens(s, i3) {
                            None => None,
                            Some((v, i4)) => if i < i4 <= s.len() {
                                spec_segment_members(s, i4, true, id, seek, start, end, text, Some(v), confidence, words)
                            } else {
                                None
                            },
                        }
                    }
                } else if key == lit_confidence() {
                    if confidence is Some {
                        None
                    } else {
                        match spec_parse_number(s, i3) {
                            None => None,
                            Some((v, i4)) => if i < i4 <= s.len() {
                                spec_segment_members(s, i4, true, id, seek, start, end, text, tokens, Some(v), words)
                            } else {
                                None
                            },
                        }
                    }
                } else if key == lit_words() {
                    if words is Some {
                        None
                    } else {
                        match spec_parse_words(s, i3) {
                            None => None,
                            Some((v, i4)) => if i < i4 <= s.len() {
                                spec_segment_members(s, i4, true, id, seek, start, end, text, tokens, confidence, Some(v))
                            } else {
                                None
                            },
                        }
                    }
                } else {
                    match spec_skip_member_value(s, i3) {
                        None => None,
                        Some(e) => if i < e <= s.len() {
                            spec_segment_members(s, e, true, id, seek, start, end, text, tokens, confidence, words)
                        } else {
                            None
                        },
                    }
                },
            },
        }
    }
}

/// Parses one segment object.
fn parse_segment(s: &Vec<u8>, i: usize) -> (r: Option<(WhisperResultSegment, usize)>)
    requires
        i <= s@.len(),
    ensures
        (match r {
            Some(p) => spec_parse_segment(s@, i as int) == Some((p.0@, p.1 as int)) && i < p.1
                <= s@.len(),
            None => spec_parse_segment(s@, i as int) is None,
        }),
{
    proof {
        reveal(spec_parse_segment);
    }
    let i1 = match match_byte(s, i, 123) {
        Some(x) => x,
        None => {
            return None;
        },
    };
    segment_members(s, i1, false, None, None, None, None, None, None, None, None)
}

/// Collects the members of a segment object, exactly as
/// `spec_segment_members` says.
#[verifier::rlimit(100)]
fn segment_members(
    s: &Vec<u8>,
    i: usize,
    need_sep: bool,
    id: Option<u32>,
    seek: Option<u32>,
    start: Option<JsonNumber>,
    end: Option<JsonNumber>,
    text: Option<Vec<u8>>,
    tokens: Option<Vec<u32>>,
    confidence: Option<JsonNumber>,
    words: Option<Vec<WhisperResultWord>>,
) -> (r: Option<(WhisperResultSegment, usize)>)
    requires
        i <= s@.len(),
    ensures
        (match r {
            Some(p) => spec_segment_members(
                s@,
                i as int,
                need_sep,
                id,
                seek,
                num_field_view(start),
                num_field_view(end),
                bytes_field_view(text),
                tokens_field_view(tokens),
                num_field_view(confidence),
                words_field_view(words),
            ) == Some((p.0@, p.1 as int)) && i < p.1 <= s@.len(),
            None => spec_segment_members(
                s@,
                i as int,
                need_sep,
                id,
                seek,
                num_field_view(start),
                num_field_view(end),
                bytes_field_view(text),
                tokens_field_view(tokens),
                num_field_view(confidence),
                words_field_view(words),
            ) is None,
        }),
    decreases s@.len() - i,
{
    proof {
        reveal(spec_segment_members);
        reveal(spec_skip_member_value);
    }
    if i >= s.len() {
        return None;
    }
    let b = s[i];
    if b == 32 || b == 9 || b == 10 || b == 13 {
        return segment_members(s, i + 1, need_sep, id, seek, start, end, text, tokens, confidence, words);
    }
    if b == 125 {
        if need_sep {
            match (id, seek, start, end, text, tokens, confidence, words) {
                (
                    Some(idv),
                    Some(sk),
                    Some(st),
                    Some(en),
                    Some(tx),
                    Some(tk),
                    Some(cf),
                    Some(ws),
                ) => {
                    return Some(
                        (
                            WhisperResultSegment {
                                id: idv,
                                seek: sk,
                                start: st,
                                end: en,
                                text: tx,
                                tokens: tk,
                                confidence: cf,
                                words: ws,
                            },
                            i + 1,
                        ),
                    );
                },
                _ => {
                    return None;
                },
            }
        } else {
            return None;
        }
    }
    if need_sep {
        if b == 44 {
            return segment_members(s, i + 1, false, id, seek, start, end, text, tokens, confidence, words);
        }
        return None;
    }
    let (key, i2) = match parse_string(s, i) {
        Some(p) => p,
        None => {
            return None;
        },
    };
    let i3 = match match_byte(s, i2, 58) {
        Some(x) => x,
        None => {
            return None;
        },
    };
    if eq_bytes(&key, &key_id()) {
        if id.is_some() {
            return None;
        }
        let (v, i4) = match parse_u32(s, i3) {
            Some(p) => p,
            None => {
                return None;
            },
        };
        return segment_members(s, i4, true, Some(v), seek, start, end, text, tokens, confidence, words);
    }
    if eq_bytes(&key, &key_seek()) {
        if seek.is_some() {
            return None;
        }
        let (v, i4) = match parse_u32(s, i3) {
            Some(p) => p,
            None => {
                return None;
            },
        };
        return segment_members(s, i4, true, id, Some(v), start, end, text, tokens, confidence, words);
    }
    if eq_bytes(&key, &key_start()) {
        if start.is_some() {
            return None;
        }
        let (v, i4) = match parse_number(s, i3) {
            Some(p) => p,
            None => {
                return None;
            },
        };
        return segment_members(s, i4, true, id, seek, Some(v), end, text, tokens, confidence, words);
    }
    if eq_bytes(&key, &key_end()) {
        if end.is_some() {
            return None;
        }
        let (v, i4) = match parse_number(s, i3) {
            Some(p) => p,
            None => {
                return None;
            },
        };
        return segment_members(s, i4, true, id, seek, start, Some(v), text, tokens, confidence, words);
    }
    if eq_bytes(&key, &key_text()) {
        if text.is_some() {
            return None;
        }
        let (v, i4) = match parse_string(s, i3) {
            Some(p) => p,
            None => {
                return None;
            },
        };
        return segment_members(s, i4, true, id, seek, start, end, Some(v), tokens, confidence, words);
    }
    if eq_bytes(&key, &key_tokens()) {
        if tokens.is_some() {
            return None;
        }
        let (v, i4) = match parse_tokens(s, i3) {
            Some(p) => p,
            None => {
                return None;
            },
        };
        return segment_members(s, i4, true, id, seek, start, end, text, Some(v), confidence, words);
    }
    if eq_bytes(&key, &key_confidence()) {
        if confidence.is_some() {
            return None;
        }
        let (v, i4) = match parse_number(s, i3) {
            Some(p) => p,
            None => {
                return None;
            },
        };
        return segment_members(s, i4, true, id, seek, start, end, text, tokens, Some(v), words);
    }
    if eq_bytes(&key, &key_words()) {
        if words.is_some() {
            return None;
        }
        let (v, i4) = match parse_words(s, i3) {
            Some(p) => p,
            None => {
                return None;
            },
        };
        return segment_members(s, i4, true, id, seek, start, end, text, tokens, confidence, Some(v));
    }
    let e = match skip_member_value(s, i3) {
        Some(x) => x,
        None => {
            return None;
        },
    };
    segment_members(s, e, true, id, seek, start, end, text, tokens, confidence, words)
}

/// The tail of the `segments` array after its first element: either the closing
/// bracket, or a comma and a further element, repeated.
pub open spec fn spec_parse_segments_rest(s: Seq<u8>, i: int) -> Option<(Seq<SegmentV>, int)>
    decreases s.len() - i,
{
    let j = skip_ws(s, i);
    if 0 <= j < s.len() && s[j] == 93 {
        Some((Seq::empty(), j + 1))
    } else if 0 <= j < s.len() && s[j] == 44 {
        match spec_parse_segment(s, j + 1) {
            Some(p) => if i < p.1 <= s.len() {
                match spec_parse_segments_rest(s, p.1) {
                    Some(q) => Some((seq![p.0] + q.0, q.1)),
                    None => None,
                }
            } else {
                None
            },
            None => None,
        }
    } else {
        None
    }
}

/// The `segments` array of a transcript.
pub open spec fn spec_parse_segments(s: Seq<u8>, i: int) -> Option<(Seq<SegmentV>, int)> {
    match spec_match_byte(s, i, 91) {
        None => None,
        Some(i1) => {
            let j = skip_ws(s, i1);
            if 0 <= j < s.len() && s[j] == 93 {
                Some((Seq::empty(), j + 1))
            } else {
                match spec_parse_segment(s, i1) {
                    Some(p) => match spec_parse_segments_rest(s, p.1) {
                        Some(q) => Some((seq![p.0] + q.0, q.1)),
                        None => None,
                    },
                    None => None,
                }
            }
        },
    }
}

/// Parses the `segments` array.
fn parse_segments(s: &Vec<u8>, i: usize) -> (r: Option<(Vec<WhisperResultSegment>, usize)>)
    requires
        i <= s@.len(),
    ensures
        match r {
            Some(p) => spec_parse_segments(s@, i as int) == Some((segments_view(p.0@), p.1 as int)) && i
                < p.1 <= s@.len(),
            None => spec_parse_segments(s@, i as int) is None,
        },
{
    let i1 = match match_byte(s, i, 91) {
        Some(x) => x,
        None => {
            return None;
        },
    };
    let j0 = ws_to(s, i1);
    if j0 < s.len() && s[j0] == 93 {
        let out: Vec<WhisperResultSegment> = Vec::new();
        proof {
            assert(segments_view(out@) =~= Seq::<SegmentV>::empty());
        }
        return Some((out, j0 + 1));
    }
    let (x0, k0) = match parse_segment(s, i1) {
        Some(p) => p,
        None => {
            return None;
        },
    };
    let mut acc: Vec<WhisperResultSegment> = Vec::new();
    acc.push(x0);
    let mut cur = k0;
    proof {
        assert(segments_view(acc@) =~= seq![x0@]);
    }
    loop
        invariant
            i <= cur <= s@.len(),
            spec_parse_segments(s@, i as int) == (match spec_parse_segments_rest(s@, cur as int) {
                Some(q) => Some((segments_view(acc@) + q.0, q.1)),
                None => None::<(Seq<SegmentV>, int)>,
            }),
        decreases s@.len() - cur,
    {
        let j = ws_to(s, cur);
        if j < s.len() && s[j] == 93 {
            proof {
                assert(segments_view(acc@) + Seq::<SegmentV>::empty() =~= segments_view(acc@));
            }
            return Some((acc, j + 1));
        }
        if j >= s.len() || s[j] != 44 {
            return None;
        }
        let (x, k) = match parse_segment(s, j + 1) {
            Some(p) => p,
            None => {
                return None;
            },
        };
        let ghost before = segments_view(acc@);
        acc.push(x);
        proof {
            assert(segments_view(acc@) =~= before + seq![x@]);
            assert(spec_parse_segments_rest(s@, k as int) matches Some(q) ==> before + (seq![x@]
                + q.0) =~= (before + seq![x@]) + q.0);
        }
        cur = k;
    }
}

/// A whole tool-output document: an object holding the full `text` and the
/// `segments` array — members in any order, unknown members (a language
/// tag, say) skipped — and nothing but whitespace after it. The parsed
/// transcript has no file identifier yet; the pipeline binds one before
/// persisting.
pub open spec fn spec_parse_transcript(s: Seq<u8>) -> Option<TranscriptV> {
    match spec_match_byte(s, 0, 123) {
        None => None,
        Some(i1) => match spec_transcript_members(s, i1, false, None, None) {
            None => None,
            Some((t, e)) => if skip_ws(s, e) == s.len() {
                Some(t)
            } else {
                None
            },
        },
    }
}

/// The members of the top-level object from `i`, with the fields seen so
/// far.
#[verifier::opaque]
pub open spec fn spec_transcript_members(
    s: Seq<u8>,
    i: int,
    need_sep: bool,
    text: Option<Seq<u8>>,
    segments: Option<Seq<SegmentV>>,
) -> Option<(TranscriptV, int)>
    decreases s.len() - i,
{
    if !(0 <= i < s.len()) {
        None
    } else if is_ws(s[i]) {
        spec_transcript_members(s, i + 1, need_sep, text, segments)
    } else if s[i] == 125 {
        if need_sep {
            match (text, segments) {
                (Some(tx), Some(gs)) => Some(
                    (TranscriptV { file_id: None, text: tx, segments: gs }, i + 1),
                ),
                _ => None,
            }
        } else {
            None
        }
    } else if need_sep {
        if s[i] == 44 {
            spec_transcript_members(s, i + 1, false, text, segments)
        } else {
            None
        }
    } else {
        match spec_parse_string(s, i) {
            None => None,
            Some((key, i2)) => match spec_match_byte(s, i2, 58) {
                None => None,
                Some(i3) => if key == lit_text() {
                    if text is Some {
                        None
                    } else {
                        match spec_parse_string(s, i3) {
                            None => None,
                            Some((v, i4)) => if i < i4 <= s.len() {
                                spec_transcript_members(s, i4, true, Some(v), segments)
                            } else {
                                None
                            },
                        }
                    }
                } else if key == lit_segments() {
                    if segments is Some {
                        None
                    } else {
                        match spec_parse_segments(s, i3) {
                            None => None,
                            Some((v, i4)) => if i < i4 <= s.len() {
                                spec_transcript_members(s, i4, true, text, Some(v))
                            } else {
                                None
                            },
                        }
                    }
                } else {
                    match spec_skip_member_value(s, i3) {
                        None => None,
                        Some(e) => if i < e <= s.len() {
                            spec_transcript_members(s, e, true, text, segments)
                        } else {
                            None
                        },
                    }
                },
            },
        }
    }
}

/// The model of an optional segment-list field.
pub open spec fn segments_field_view(o: Option<Vec<WhisperResultSegment>>) -> Option<
    Seq<SegmentV>,
> {
    match o {
        Some(v) => Some(segments_view(v@)),
        None => None,
    }
}

/// Parses a whole tool-output document, exactly as `spec_parse_transcript`
/// says.
pub fn parse_transcript(s: &Vec<u8>) -> (r: Option<WhisperResult>)
    ensures
        (match r {
            Some(t) => spec_parse_transcript(s@) == Some(t@),
            None => spec_parse_transcript(s@) is None,
        }),
{
    let i1 = match match_byte(s, 0, 123) {
        Some(x) => x,
        None => {
            return None;
        },
    };
    let (t, e) = match transcript_members(s, i1, false, None, None) {
        Some(p) => p,
        None => {
            return None;
        },
    };
    let j = ws_to(s, e);
    if j == s.len() {
        Some(t)
    } else {
        None
    }
}

/// Collects the members of the top-level object, exactly as
/// `spec_transcript_members` says.
fn transcript_members(
    s: &Vec<u8>,
    i: usize,
    need_sep: bool,
    text: Option<Vec<u8>>,
    segments: Option<Vec<WhisperResultSegment>>,
) -> (r: Option<(WhisperResult, usize)>)
    requires
        i <= s@.len(),
    ensures
        (match r {
            Some(p) => spec_transcript_members(
                s@,
                i as int,
                need_sep,
                bytes_field_view(text),
                segments_field_view(segments),
            ) == Some((p.0@, p.1 as int)) && i < p.1 <= s@.len(),
            None => spec_transcript_members(
                s@,
                i as int,
                need_sep,
                bytes_field_view(text),
                segments_field_view(segments),
            ) is None,
        }),
    decreases s@.len() - i,
{
    proof {
        reveal(spec_transcript_members);
        reveal(spec_skip_member_value);
    }
    if i >= s.len() {
        return None;
    }
    let b = s[i];
    if b == 32 || b == 9 || b == 10 || b == 13 {
        return transcript_members(s, i + 1, need_sep, text, segments);
    }
    if b == 125 {
        if need_sep {
            match (text, segments) {
                (Some(tx), Some(gs)) => {
                    return Some(
                        (WhisperResult { file_id: None, text: tx, segments: gs }, i + 1),
                    );
                },
                _ => {
                    return None;
                },
            }
        } else {
            return None;
        }
    }
    if need_sep {
        if b == 44 {
            return transcript_members(s, i + 1, false, text, segments);
        }
        return None;
    }
    let (key, i2) = match parse_string(s, i) {
        Some(p) => p,
        None => {
            return None;
        },
    };
    let i3 = match match_byte(s, i2, 58) {
        Some(x) => x,
        None => {
            return None;
        },
    };
    if eq_bytes(&key, &key_text()) {
        if text.is_some() {
            return None;
        }
        let (v, i4) = match parse_string(s, i3) {
            Some(p) => p,
            None => {
                return None;
            },
        };
        return transcript_members(s, i4, true, Some(v), segments);
    }
    if eq_bytes(&key, &key_segments()) {
        if segments.is_some() {
            return None;
        }
        let (v, i4) = match parse_segments(s, i3) {
            Some(p) => p,
            None => {
                return None;
            },
        };
        return transcript_members(s, i4, true, text, Some(v));
    }
    let e = match skip_member_value(s, i3) {
        Some(x) => x,
        None => {
            return None;
        },
    };
    transcript_members(s, e, true, text, segments)
}

/// How the printer escapes one content byte.
pub open spec fn escape_byte(b: u8) -> Seq<u8> {
    if b == 34 {
        seq![92u8, 34u8]
    } else if b == 92 {
        seq![92u8, 92u8]
    } else if b == 10 {
        seq![92u8, 110u8]
    } else if b == 9 {
        seq![92u8, 116u8]
    } else if b == 13 {
        seq![92u8, 114u8]
    } else if b == 8 {
        seq![92u8, 98u8]
    } else if b == 12 {
        seq![92u8, 102u8]
    } else {
        seq![b]
    }
}

/// The escaped form of string content.
pub open spec fn escape(t: Seq<u8>) -> Seq<u8>
    decreases t.len(),
{
    if t.len() == 0 {
        Seq::empty()
    } else {
        escape_byte(t[0]) + escape(t.drop_first())
    }
}

/// A printed string literal.
pub open spec fn render_string(t: Seq<u8>) -> Seq<u8> {
    seq![34u8] + escape(t) + seq![34u8]
}

/// The decimal digits of `n`, most significant first.
pub open spec fn dec_digits(n: nat) -> Seq<u8>
    decreases n,
{
    if n < 10 {
        seq![(48 + n) as u8]
    } else {
        dec_digits(n / 10) + seq![(48 + n % 10) as u8]
    }
}

/// A printed object key with its quotes and colon.
pub open spec fn qkey(key: Seq<u8>) -> Seq<u8> {
    seq![34u8] + key + seq![34u8, 58u8]
}

/// A printed word object, compact, fields in the tool's order.
pub open spec fn render_word(w: WordV) -> Seq<u8> {
    seq![123u8] + qkey(lit_start()) + w.start + seq![44u8] + qkey(lit_end()) + w.end + seq![44u8]
        + qkey(lit_text()) + render_string(w.text) + seq![44u8] + qkey(lit_confidence())
        + w.confidence + seq![125u8]
}

/// The comma-separated items of a printed `words` array.
pub open spec fn render_words_items(ws: Seq<WordV>) -> Seq<u8>
    decreases ws.len(),
{
    if ws.len() == 0 {
        Seq::empty()
    } else if ws.len() == 1 {
        render_word(ws[0])
    } else {
        render_word(ws[0]) + seq![44u8] + render_words_items(ws.drop_first())
    }
}

/// A printed `words` array.
pub open spec fn render_words(ws: Seq<WordV>) -> Seq<u8> {
    seq![91u8] + render_words_items(ws) + seq![93u8]
}

/// The comma-separated items of a printed `tokens` array.
pub open spec fn render_tokens_items(ts: Seq<u32>) -> Seq<u8>
    decreases ts.len(),
{
    if ts.len() == 0 {
        Seq::empty()
    } else if ts.len() == 1 {
        dec_digits(ts[0] as nat)
    } else {
        dec_digits(ts[0] as nat) + seq![44u8] + render_tokens_items(ts.drop_first())
    }
}

/// A printed `tokens` array.
pub open spec fn render_tokens(ts: Seq<u32>) -> Seq<u8> {
    seq![91u8] + render_tokens_items(ts) + seq![93u8]
}

/// A printed segment object, fields in the tool's order.
pub open spec fn render_segment(g: SegmentV) -> Seq<u8> {
    seq![123u8] + qkey(lit_id()) + dec_digits(g.id as nat) + seq![44u8] + qkey(lit_seek())
        + dec_digits(g.seek as nat) + seq![44u8] + qkey(lit_start()) + g.start + seq![44u8]
        + qkey(lit_end()) + g.end + seq![44u8] + qkey(lit_text()) + render_string(g.text)
        + seq![44u8] + qkey(lit_tokens()) + render_tokens(g.tokens) + seq![44u8]
        + qkey(lit_confidence()) + g.confidence + seq![44u8] + qkey(lit_words())
        + render_words(g.words) + seq![125u8]
}

/// The comma-separated items of a printed `segments` array.
pub open spec fn render_segments_items(gs: Seq<SegmentV>) -> Seq<u8>
    decreases gs.len(),
{
    if gs.len() == 0 {
        Seq::empty()
    } else if gs.len() == 1 {
        render_segment(gs[0])
    } else {
        render_segment(gs[0]) + seq![44u8] + render_segments_items(gs.drop_first())
    }
}

/// A printed `segments` array.
pub open spec fn render_segments(gs: Seq<SegmentV>) -> Seq<u8> {
    seq![91u8] + render_segments_items(gs) + seq![93u8]
}

/// A whole printed transcript in the tool-output shape: the full text and
/// the segments. The file identifier is not part of this shape.
pub open spec fn spec_render_transcript(t: TranscriptV) -> Seq<u8> {
    seq![123u8] + qkey(lit_text()) + render_string(t.text) + seq![44u8] + qkey(lit_segments())
        + render_segments(t.segments) + seq![125u8]
}

/// Escaping distributes over extension by one byte.
pub proof fn lemma_escape_snoc(a: Seq<u8>, b: u8)
    ensures
        escape(a.push(b)) == escape(a) + escape_byte(b),
    decreases a.len(),
{
    let x = a.push(b);
    if a.len() == 0 {
        assert(x.len() == 1);
        assert(x[0] == b);
        assert(x.drop_first() =~= Seq::<u8>::empty());
        assert(escape(x.drop_first()) =~= Seq::<u8>::empty());
        assert(escape(x) =~= escape_byte(b));
        assert(escape(a) =~= Seq::<u8>::empty());
        assert(escape(a) + escape_byte(b) =~= escape_byte(b));
    } else {
        assert(x.len() == a.len() + 1);
        assert(x[0] == a[0]);
        assert(x.drop_first() =~= a.drop_first().push(b));
        lemma_escape_snoc(a.drop_first(), b);
        assert(escape(x) == escape_byte(x[0]) + escape(x.drop_first()));
        assert(escape(x.drop_first()) == escape(a.drop_first()) + escape_byte(b));
        assert(escape(a) == escape_byte(a[0]) + escape(a.drop_first()));
        assert(escape_byte(a[0]) + (escape(a.drop_first()) + escape_byte(b)) =~= (escape_byte(
            a[0],
        ) + escape(a.drop_first())) + escape_byte(b));
    }
}

/// Appends one punctuation byte.
fn emit_byte(out: &mut Vec<u8>, b: u8)
    ensures
        final(out)@ == old(out)@ + seq![b],
{
    out.push(b);
    proof {
        assert(final(out)@ =~= old(out)@ + seq![b]);
    }
}

/// Appends a quoted key and its colon.
fn emit_qkey(out: &mut Vec<u8>, key: &Vec<u8>)
    ensures
        final(out)@ == old(out)@ + qkey(key@),
{
    out.push(34);
    out.extend_from_slice(key.as_slice());
    out.push(34);
    out.push(58);
    proof {
        assert(final(out)@ =~= old(out)@ + qkey(key@));
    }
}

/// Appends escaped string content.
fn emit_escaped(out: &mut Vec<u8>, t: &Vec<u8>)
    ensures
        final(out)@ == old(out)@ + escape(t@),
{
    let mut k: usize = 0;
    while k < t.len()
        invariant
            k <= t@.len(),
            out@ == old(out)@ + escape(t@.subrange(0, k as int)),
        decreases t@.len() - k,
    {
        let b = t[k];
        proof {
            assert(t@.subrange(0, k + 1) =~= t@.subrange(0, k as int).push(b));
            lemma_escape_snoc(t@.subrange(0, k as int), b);
        }
        let ghost mid = out@;
        if b == 34 {
            out.push(92);
            out.push(34);
        } else if b == 92 {
            out.push(92);
            out.push(92);
        } else if b == 10 {
            out.push(92);
            out.push(110);
        } else if b == 9 {
            out.push(92);
            out.push(116);
        } else if b == 13 {
            out.push(92);
            out.push(114);
        } else if b == 8 {
            out.push(92);
            out.push(98);
        } else if b == 12 {
            out.push(92);
            out.push(102);
        } else {
            out.push(b);
        }
        proof {
            assert(out@ =~= mid + escape_byte(b));
            assert(mid + escape_byte(b) =~= old(out)@ + escape(t@.subrange(0, k + 1)));
        }
        k = k + 1;
    }
    proof {
        assert(t@.subrange(0, t@.len() as int) =~= t@);
    }
}

/// Appends a printed string literal.
fn emit_string(out: &mut Vec<u8>, t: &Vec<u8>)
    ensures
        final(out)@ == old(out)@ + render_string(t@),
{
    out.push(34);
    emit_escaped(out, t);
    out.push(34);
    proof {
        assert(final(out)@ =~= old(out)@ + render_string(t@));
    }
}

/// Appends the decimal digits of `n`.
fn emit_u32(out: &mut Vec<u8>, n: u32)
    ensures
        final(out)@ == old(out)@ + dec_digits(n as nat),
    decreases n,
{
    if n < 10 {
        out.push(48 + (n as u8));
        proof {
            assert(final(out)@ =~= old(out)@ + dec_digits(n as nat));
        }
    } else {
        emit_u32(out, n / 10);
        out.push(48 + ((n % 10) as u8));
        proof {
            assert(final(out)@ =~= old(out)@ + dec_digits(n as nat));
        }
    }
}

/// Appends a raw number token verbatim.
fn emit_number(out: &mut Vec<u8>, num: &JsonNumber)
    ensures
        final(out)@ == old(out)@ + num.text@,
{
    out.extend_from_slice(num.text.as_slice());
}

/// Appends a printed word object.
fn emit_word(out: &mut Vec<u8>, w: &WhisperResultWord)
    ensures
        final(out)@ == old(out)@ + render_word(w@),
{
    emit_byte(out, 123);
    emit_qkey(out, &key_start());
    emit_number(out, &w.start);
    emit_byte(out, 44);
    emit_qkey(out, &key_end());
    emit_number(out, &w.end);
    emit_byte(out, 44);
    emit_qkey(out, &key_text());
    emit_string(out, &w.text);
    emit_byte(out, 44);
    emit_qkey(out, &key_confidence());
    emit_number(out, &w.confidence);
    emit_byte(out, 125);
    proof {
        assert(final(out)@ =~= old(out)@ + render_word(w@));
    }
}

/// Appends the items of a `words` array from `idx` on.
fn emit_words_items(out: &mut Vec<u8>, ws: &Vec<WhisperResultWord>, idx: usize)
    requires
        idx <= ws@.len(),
    ensures
        final(out)@ == old(out)@ + render_words_items(
            words_view(ws@).subrange(idx as int, ws@.len() as int),
        ),
    decreases ws@.len() - idx,
{
    let ghost tail = words_view(ws@).subrange(idx as int, ws@.len() as int);
    if idx >= ws.len() {
        proof {
            assert(final(out)@ =~= old(out)@ + render_words_items(tail));
        }
        return ;
    }
    emit_word(out, &ws[idx]);
    proof {
        assert(tail[0] == ws@[idx as int]@);
    }
    if idx + 1 < ws.len() {
        emit_byte(out, 44);
        emit_words_items(out, ws, idx + 1);
        proof {
            assert(tail.drop_first() =~= words_view(ws@).subrange(idx + 1, ws@.len() as int));
            assert(final(out)@ =~= old(out)@ + render_words_items(tail));
        }
    } else {
        proof {
            assert(tail.len() == 1);
            assert(final(out)@ =~= old(out)@ + render_words_items(tail));
        }
    }
}

/// Appends a printed `words` array.
fn emit_words(out: &mut Vec<u8>, ws: &Vec<WhisperResultWord>)
    ensures
        final(out)@ == old(out)@ + render_words(words_view(ws@)),
{
    out.push(91);
    emit_words_items(out, ws, 0);
    out.push(93);
    proof {
        assert(words_view(ws@).subrange(0, ws@.len() as int) =~= words_view(ws@));
        assert(final(out)@ =~= old(out)@ + render_words(words_view(ws@)));
    }
}

/// Appends the items of a `tokens` array from `idx` on.
fn emit_tokens_items(out: &mut Vec<u8>, ts: &Vec<u32>, idx: usize)
    requires
        idx <= ts@.len(),
    ensures
        final(out)@ == old(out)@ + render_tokens_items(
            ts@.subrange(idx as int, ts@.len() as int),
        ),
    decreases ts@.len() - idx,
{
    let ghost tail = ts@.subrange(idx as int, ts@.len() as int);
    if idx >= ts.len() {
        proof {
            assert(final(out)@ =~= old(out)@ + render_tokens_items(tail));
        }
        return ;
    }
    emit_u32(out, ts[idx]);
    if idx + 1 < ts.len() {
        emit_byte(out, 44);
        emit_tokens_items(out, ts, idx + 1);
        proof {
            assert(tail.drop_first() =~= ts@.subrange(idx + 1, ts@.len() as int));
            assert(final(out)@ =~= old(out)@ + render_tokens_items(tail));
        }
    } else {
        proof {
            assert(tail.len() == 1);
            assert(final(out)@ =~= old(out)@ + render_tokens_items(tail));
        }
    }
}

/// Appends a printed `tokens` array.
fn emit_tokens(out: &mut Vec<u8>, ts: &Vec<u32>)
    ensures
        final(out)@ == old(out)@ + render_tokens(ts@),
{
    out.push(91);
    emit_tokens_items(out, ts, 0);
    out.push(93);
    proof {
        assert(ts@.subrange(0, ts@.len() as int) =~= ts@);
        assert(final(out)@ =~= old(out)@ + render_tokens(ts@));
    }
}

/// Appends a printed segment object.
#[verifier::rlimit(100)]
fn emit_segment(out: &mut Vec<u8>, g: &WhisperResultSegment)
    ensures
        final(out)@ == old(out)@ + render_segment(g@),
{
    emit_byte(out, 123);
    emit_qkey(out, &key_id());
    emit_u32(out, g.id);
    emit_byte(out, 44);
    emit_qkey(out, &key_seek());
    emit_u32(out, g.seek);
    emit_byte(out, 44);
    emit_qkey(out, &key_start());
    emit_number(out, &g.start);
    emit_byte(out, 44);
    emit_qkey(out, &key_end());
    emit_number(out, &g.end);
    emit_byte(out, 44);
    emit_qkey(out, &key_text());
    emit_string(out, &g.text);
    emit_byte(out, 44);
    emit_qkey(out, &key_tokens());
    emit_tokens(out, &g.tokens);
    emit_byte(out, 44);
    emit_qkey(out, &key_confidence());
    emit_number(out, &g.confidence);
    emit_byte(out, 44);
    emit_qkey(out, &key_words());
    emit_words(out, &g.words);
    emit_byte(out, 125);
    proof {
        assert(final(out)@ =~= old(out)@ + render_segment(g@));
    }
}

/// Appends the items of a `segments` array from `idx` on.
fn emit_segments_items(out: &mut Vec<u8>, gs: &Vec<WhisperResultSegment>, idx: usize)
    requires
        idx <= gs@.len(),
    ensures
        final(out)@ == old(out)@ + render_segments_items(
            segments_view(gs@).subrange(idx as int, gs@.len() as int),
        ),
    decreases gs@.len() - idx,
{
    let ghost tail = segments_view(gs@).subrange(idx as int, gs@.len() as int);
    if idx >= gs.len() {
        proof {
            assert(final(out)@ =~= old(out)@ + render_segments_items(tail));
        }
        return ;
    }
    emit_segment(out, &gs[idx]);
    proof {
        assert(tail[0] == gs@[idx as int]@);
    }
    if idx + 1 < gs.len() {
        emit_byte(out, 44);
        emit_segments_items(out, gs, idx + 1);
        proof {
            assert(tail.drop_first() =~= segments_view(gs@).subrange(idx + 1, gs@.len() as int));
            assert(final(out)@ =~= old(out)@ + render_segments_items(tail));
        }
    } else {
        proof {
            assert(tail.len() == 1);
            assert(final(out)@ =~= old(out)@ + render_segments_items(tail));
        }
    }
}

/// Prints a transcript in the tool-output shape, exactly as
/// `spec_render_transcript` says.
pub fn render_transcript(t: &WhisperResult) -> (r: Vec<u8>)
    ensures
        r@ == spec_render_transcript(t@),
{
    let mut out: Vec<u8> = Vec::new();
    emit_byte(&mut out, 123);
    emit_qkey(&mut out, &key_text());
    emit_string(&mut out, &t.text);
    emit_byte(&mut out, 44);
    emit_qkey(&mut out, &key_segments());
    out.push(91);
    emit_segments_items(&mut out, &t.segments, 0);
    out.push(93);
    emit_byte(&mut out, 125);
    proof {
        assert(segments_view(t.segments@).subrange(0, t.segments@.len() as int) =~= segments_view(
            t.segments@,
        ));
        assert(out@ =~= spec_render_transcript(t@));
    }
    out
}

/// Text the printer can reproduce exactly: any byte except the raw control
/// bytes that have no single-character escape.
pub open spec fn wf_text(t: Seq<u8>) -> bool {
    forall|i: int|
        0 <= i < t.len() ==> (t[i] >= 32 || t[i] == 8 || t[i] == 9 || t[i] == 10 || t[i] == 12
            || t[i] == 13)
}

/// A word whose numeric fields are number tokens and whose text is
/// printable.
pub open spec fn wf_word(w: WordV) -> bool {
    is_number_token(w.start) && is_number_token(w.end) && is_number_token(w.confidence)
        && wf_text(w.text)
}

/// A segment whose fields are printable, words included.
pub open spec fn wf_segment(g: SegmentV) -> bool {
    is_number_token(g.start) && is_number_token(g.end) && is_number_token(g.confidence)
        && wf_text(g.text) && (forall|i: int|
        0 <= i < g.words.len() ==> wf_word(#[trigger] g.words[i]))
}

/// A transcript whose fields are printable, segments included.
pub open spec fn wf_transcript(t: TranscriptV) -> bool {
    wf_text(t.text) && (forall|i: int|
        0 <= i < t.segments.len() ==> wf_segment(#[trigger] t.segments[i]))
}

/// A digit run with a known end is exactly what `digits_end` finds.
proof fn lemma_digits_run(s: Seq<u8>, i: int, j: int)
    requires
        0 <= i <= j <= s.len(),
        forall|k: int| i <= k < j ==> is_digit(#[trigger] s[k]),
        j == s.len() || !is_digit(s[j]),
    ensures
        digits_end(s, i) == j,
    decreases j - i,
{
    if i < j {
        lemma_digits_run(s, i + 1, j);
    }
}

/// Printed decimal digits are digits, and there is at least one.
proof fn lemma_dec_digits_props(n: nat)
    ensures
        dec_digits(n).len() >= 1,
        forall|k: int| 0 <= k < dec_digits(n).len() ==> is_digit(#[trigger] dec_digits(n)[k]),
    decreases n,
{
    if n >= 10 {
        lemma_dec_digits_props(n / 10);
    }
}

/// Reading printed decimal digits gives back the number.
proof fn lemma_dec_value_digits(n: nat)
    ensures
        dec_value(dec_digits(n)) == n,
    decreases n,
{
    if n < 10 {
        assert(dec_digits(n) == seq![(48 + n) as u8]);
        assert(dec_digits(n).drop_last() =~= Seq::<u8>::empty());
        assert(dec_value(Seq::<u8>::empty()) == 0);
        assert(is_digit(dec_digits(n).last()));
        assert(dec_value(dec_digits(n)) == 0 * 10 + ((48 + n) as u8 - 48));
    } else {
        lemma_dec_value_digits(n / 10);
        assert(dec_digits(n).drop_last() =~= dec_digits(n / 10));
        assert(dec_digits(n).last() == (48 + n % 10) as u8);
        assert(dec_value(dec_digits(n)) == dec_value(dec_digits(n / 10)) * 10 + n % 10);
        assert((n / 10) * 10 + n % 10 == n) by {
            vstd::arithmetic::div_mod::lemma_fundamental_div_mod(n as int, 10);
        };
    }
}

/// A printed `u32` embedded at `i`, with nothing digit-like after it, parses
/// back to the same value.
proof fn lemma_parse_u32_at(s: Seq<u8>, i: int, n: u32)
    requires
        0 <= i,
        i + dec_digits(n as nat).len() <= s.len(),
        s.subrange(i, i + dec_digits(n as nat).len()) == dec_digits(n as nat),
        i + dec_digits(n as nat).len() == s.len() || !is_digit(
            s[i + dec_digits(n as nat).len()],
        ),
    ensures
        spec_parse_u32(s, i) == Some((n, i + dec_digits(n as nat).len())),
{
    reveal(spec_parse_u32);
    let d = dec_digits(n as nat);
    lemma_dec_digits_props(n as nat);
    assert forall|k: int| i <= k < i + d.len() implies is_digit(#[trigger] s[k]) by {
        assert(s[k] == s.subrange(i, i + d.len())[k - i]);
    }
    assert(s[i] == d[0]);
    assert(is_digit(s[i]));
    assert(!is_ws(s[i]));
    assert(skip_ws(s, i) == i);
    lemma_digits_run(s, i, i + d.len());
    assert(s.subrange(i, i + d.len()) == d);
    lemma_dec_value_digits(n as nat);
    assert(dec_value(s.subrange(i, i + d.len())) == n);
}

/// A number token embedded at `i`, with nothing number-like after it,
/// parses back verbatim.
#[verifier::rlimit(100)]
proof fn lemma_parse_number_at(s: Seq<u8>, i: int, tok: Seq<u8>)
    requires
        is_number_token(tok),
        0 <= i,
        i + tok.len() <= s.len(),
        s.subrange(i, i + tok.len()) == tok,
        i + tok.len() == s.len() || !(is_digit(s[i + tok.len()]) || s[i + tok.len()] == 46
            || s[i + tok.len()] == 101 || s[i + tok.len()] == 69),
    ensures
        spec_parse_number(s, i) == Some((tok, i + tok.len())),
{
    reveal(spec_parse_number);
    let e = i + tok.len();
    let at = if 0 <= 0 < tok.len() && tok[0] == 45 {
        1
    } else {
        0
    };
    let bt = digits_end(tok, at);
    assert(bt > at);
    lemma_digits_end_bounds(tok, at);
    assert forall|k: int| 0 <= k < tok.len() implies #[trigger] s[i + k] == tok[k] by {
        assert(tok[k] == s.subrange(i, e)[k]);
    }
    assert(tok.len() >= 1);
    assert(s[i] == tok[0]);
    assert(!is_ws(s[i]));
    assert(skip_ws(s, i) == i);
    let a = if 0 <= i < s.len() && s[i] == 45 {
        i + 1
    } else {
        i
    };
    assert(a == i + at);
    assert forall|k: int| i + at <= k < i + bt implies is_digit(#[trigger] s[k]) by {
        assert(s[k] == tok[k - i]);
    }
    if bt < tok.len() {
        assert(s[i + bt] == tok[bt]);
    }
    lemma_digits_run(s, i + at, i + bt);
    assert(digits_end(s, a) == i + bt);
    let ct = match frac_end(tok, bt) {
        Some(c) => c,
        None => bt,
    };
    assert(frac_end(tok, bt) == Some(ct));
    if 0 <= bt < tok.len() && tok[bt] == 46 {
        assert(ct == digits_end(tok, bt + 1));
        assert(ct > bt + 1);
        lemma_digits_end_bounds(tok, bt + 1);
        assert forall|k: int| i + bt + 1 <= k < i + ct implies is_digit(#[trigger] s[k]) by {
            assert(s[k] == tok[k - i]);
        }
        if ct < tok.len() {
            assert(s[i + ct] == tok[ct]);
        }
        lemma_digits_run(s, i + bt + 1, i + ct);
        assert(frac_end(s, i + bt) == Some(i + ct));
    } else {
        assert(ct == bt);
        if bt < tok.len() {
            assert(s[i + bt] == tok[bt] && tok[bt] != 46);
        } else {
            assert(i + bt == e);
            assert(e == s.len() || s[e] != 46);
        }
        assert(frac_end(s, i + bt) == Some(i + ct));
    }
    if 0 <= ct < tok.len() && (tok[ct] == 101 || tok[ct] == 69) {
        let jt = if ct + 1 < tok.len() && (tok[ct + 1] == 43 || tok[ct + 1] == 45) {
            ct + 2
        } else {
            ct + 1
        };
        let dt = digits_end(tok, jt);
        assert(dt > jt);
        assert(dt == tok.len());
        lemma_digits_end_bounds(tok, jt);
        assert(jt < tok.len());
        assert(s[i + ct] == tok[ct]);
        let js = if i + ct + 1 < s.len() && (s[i + ct + 1] == 43 || s[i + ct + 1] == 45) {
            i + ct + 2
        } else {
            i + ct + 1
        };
        assert(s[i + ct + 1] == tok[ct + 1]);
        assert(js == i + jt);
        assert forall|k: int| i + jt <= k < e implies is_digit(#[trigger] s[k]) by {
            assert(s[k] == tok[k - i]);
        }
        lemma_digits_run(s, i + jt, e);
        assert(exp_end(s, i + ct) == Some(e));
    } else {
        if ct < tok.len() {
            assert(s[i + ct] == tok[ct] && !(tok[ct] == 101 || tok[ct] == 69));
        } else {
            assert(i + ct == e);
            assert(e == s.len() || !(s[e] == 101 || s[e] == 69));
        }
        assert(ct == tok.len());
        assert(exp_end(s, i + ct) == Some(e));
    }
    assert(number_end(s, i) == Some(e));
    assert(s.subrange(i, e) == tok);
}

/// Escaped text embedded after an opening quote, with its closing quote,
/// parses back to the original text.
proof fn lemma_parse_str_body_at(s: Seq<u8>, i: int, txt: Seq<u8>)
    requires
        wf_text(txt),
        0 <= i,
        i + escape(txt).len() + 1 <= s.len(),
        s.subrange(i, i + escape(txt).len()) == escape(txt),
        s[i + escape(txt).len()] == 34,
    ensures
        parse_str_body(s, i) == Some((txt, i + escape(txt).len() + 1)),
    decreases txt.len(),
{
    let el = escape(txt).len();
    assert forall|k: int| i <= k < i + el implies #[trigger] s[k] == escape(txt)[k - i] by {
        assert(escape(txt)[k - i] == s.subrange(i, i + el)[k - i]);
    }
    if txt.len() == 0 {
        assert(el == 0);
        assert(s[i] == 34);
        assert(parse_str_body(s, i) == Some((Seq::<u8>::empty(), i + 1)));
        assert(txt =~= Seq::<u8>::empty());
    } else {
        let c = txt[0];
        let rest = txt.drop_first();
        let eb = escape_byte(c);
        assert(escape(txt) == eb + escape(rest));
        assert(wf_text(rest)) by {
            assert(forall|k: int| 0 <= k < rest.len() ==> rest[k] == #[trigger] txt[k + 1]);
        }
        assert(c >= 32 || c == 8 || c == 9 || c == 10 || c == 12 || c == 13);
        if c == 34 || c == 92 || c == 10 || c == 9 || c == 13 || c == 8 || c == 12 {
            assert(eb.len() == 2 && eb[0] == 92);
            assert(s[i] == escape(txt)[0]);
            assert(s[i] == 92);
            assert(s[i + 1] == escape(txt)[1]);
            assert(s[i + 1] == eb[1]);
            assert(unescape_byte(eb[1]) == Some(c));
            assert forall|m: int| 0 <= m < escape(rest).len() implies s.subrange(
                i + 2,
                i + 2 + escape(rest).len(),
            )[m] == escape(rest)[m] by {
                assert(s[i + 2 + m] == escape(txt)[m + 2]);
                assert(escape(txt)[m + 2] == escape(rest)[m]);
            }
            assert(s.subrange(i + 2, i + 2 + escape(rest).len()) =~= escape(rest));
            assert(s[i + 2 + escape(rest).len() as int] == 34);
            lemma_parse_str_body_at(s, i + 2, rest);
            assert(seq![c] + rest =~= txt);
        } else {
            assert(eb == seq![c]);
            assert(s[i] == escape(txt)[0]);
            assert(s[i] == c);
            assert(c != 34 && c != 92 && c >= 32);
            assert forall|m: int| 0 <= m < escape(rest).len() implies s.subrange(
                i + 1,
                i + 1 + escape(rest).len(),
            )[m] == escape(rest)[m] by {
                assert(s[i + 1 + m] == escape(txt)[m + 1]);
                assert(escape(txt)[m + 1] == escape(rest)[m]);
            }
            assert(s.subrange(i + 1, i + 1 + escape(rest).len()) =~= escape(rest));
            assert(s[i + 1 + escape(rest).len() as int] == 34);
            lemma_parse_str_body_at(s, i + 1, rest);
            assert(seq![c] + rest =~= txt);
        }
    }
}

/// A printed string literal embedded at `i` parses back to its text.
proof fn lemma_parse_string_at(s: Seq<u8>, i: int, txt: Seq<u8>)
    requires
        wf_text(txt),
        0 <= i,
        i + render_string(txt).len() <= s.len(),
        s.subrange(i, i + render_string(txt).len()) == render_string(txt),
    ensures
        spec_parse_string(s, i) == Some((txt, i + render_string(txt).len())),
{
    reveal(spec_parse_string);
    let r = render_string(txt);
    assert forall|k: int| i <= k < i + r.len() implies #[trigger] s[k] == r[k - i] by {
        assert(r[k - i] == s.subrange(i, i + r.len())[k - i]);
    }
    assert(r[0] == 34);
    assert(s[i] == 34);
    assert(!is_ws(s[i]));
    assert(skip_ws(s, i) == i);
    assert forall|m: int| 0 <= m < escape(txt).len() implies s.subrange(
        i + 1,
        i + 1 + escape(txt).len(),
    )[m] == escape(txt)[m] by {
        assert(s[i + 1 + m] == r[m + 1]);
        assert(r[m + 1] == escape(txt)[m]);
    }
    assert(s.subrange(i + 1, i + 1 + escape(txt).len()) =~= escape(txt));
    assert(s[i + 1 + escape(txt).len() as int] == r[1 + escape(txt).len() as int]);
    assert(r[1 + escape(txt).len() as int] == 34);
    lemma_parse_str_body_at(s, i + 1, txt);
}

/// A plain region (no quote, no backslash, no control byte) up to a
/// closing quote is its own string-literal body.
#[verifier::rlimit(100)]
#[verifier::spinoff_prover]
proof fn lemma_parse_plain_body(s: Seq<u8>, i: int, j: int)
    requires
        0 <= i <= j < s.len(),
        forall|k: int| i <= k < j ==> (32 <= #[trigger] s[k] && s[k] != 34 && s[k] != 92),
        s[j] == 34,
    ensures
        parse_str_body(s, i) == Some((s.subrange(i, j), j + 1)),
    decreases j - i,
{
    if i == j {
        assert(s.subrange(i, j) =~= Seq::<u8>::empty());
    } else {
        lemma_parse_plain_body(s, i + 1, j);
        assert(seq![s[i]] + s.subrange(i + 1, j) =~= s.subrange(i, j));
    }
}

/// A printed key embedded at `i` parses back as a string literal, with its
/// colon following.
#[verifier::rlimit(100)]
#[verifier::spinoff_prover]
proof fn lemma_parse_key_at(s: Seq<u8>, i: int, key: Seq<u8>)
    requires
        forall|k: int|
            0 <= k < key.len() ==> (32 <= #[trigger] key[k] && key[k] != 34 && key[k] != 92),
        0 <= i,
        i + key.len() + 3 <= s.len(),
        s.subrange(i, i + key.len() + 3) == qkey(key),
    ensures
        spec_parse_string(s, i) == Some((key, i + key.len() + 2)),
        spec_match_byte(s, i + key.len() + 2, 58) == Some(i + key.len() + 3),
{
    reveal(spec_parse_string);
    let q = qkey(key);
    let kl = key.len() as int;
    assert forall|k: int| i <= k < i + kl + 3 implies #[trigger] s[k] == q[k - i] by {
        assert(q[k - i] == s.subrange(i, i + kl + 3)[k - i]);
    }
    assert(q[0] == 34);
    assert(s[i] == 34);
    assert(!is_ws(s[i]));
    assert(skip_ws(s, i) == i);
    assert forall|k: int| i + 1 <= k < i + 1 + kl implies (32 <= #[trigger] s[k] && s[k] != 34
        && s[k] != 92) by {
        assert(s[k] == q[k - i]);
        assert(q[k - i] == key[k - i - 1]);
    }
    assert(s[i + 1 + kl] == q[1 + kl]);
    assert(q[1 + kl] == 34);
    lemma_parse_plain_body(s, i + 1, i + 1 + kl);
    assert(s.subrange(i + 1, i + 1 + kl) =~= key);
    assert(s[i + 2 + kl] == q[2 + kl]);
    assert(q[2 + kl] == 58);
    assert(!is_ws(s[i + 2 + kl]));
    assert(skip_ws(s, i + kl + 2) == i + kl + 2);
}

/// The object keys told apart by the member dispatch are pairwise
/// distinct.
proof fn lemma_keys_distinct()
    ensures
        lit_end() != lit_start(),
        lit_text() != lit_start(),
        lit_text() != lit_end(),
        lit_confidence() != lit_start(),
        lit_confidence() != lit_end(),
        lit_confidence() != lit_text(),
        lit_seek() != lit_id(),
        lit_start() != lit_id(),
        lit_start() != lit_seek(),
        lit_end() != lit_id(),
        lit_end() != lit_seek(),
        lit_text() != lit_id(),
        lit_text() != lit_seek(),
        lit_tokens() != lit_id(),
        lit_tokens() != lit_seek(),
        lit_tokens() != lit_start(),
        lit_tokens() != lit_end(),
        lit_tokens() != lit_text(),
        lit_confidence() != lit_id(),
        lit_confidence() != lit_seek(),
        lit_confidence() != lit_tokens(),
        lit_words() != lit_id(),
        lit_words() != lit_seek(),
        lit_words() != lit_start(),
        lit_words() != lit_end(),
        lit_words() != lit_text(),
        lit_words() != lit_tokens(),
        lit_words() != lit_confidence(),
        lit_segments() != lit_text(),
{
    assert(lit_words()[0] != lit_start()[0]);
    assert(lit_seek()[0] != lit_text()[0]);
}

#[verifier::rlimit(100)]
#[verifier::spinoff_prover]
proof fn lemma_parse_word_at_front1(s: Seq<u8>, i: int, w: WordV)
    requires
        wf_word(w),
        0 <= i,
        i + render_word(w).len() <= s.len(),
        s.subrange(i, i + render_word(w).len()) == render_word(w),
    ensures
        ({
            let o1 = i + 1;
            let o2 = o1 + 8;
            let o3 = o2 + w.start.len() as int;
            let o4 = o3 + 1;
            let o5 = o4 + 6;
            let o6 = o5 + w.end.len() as int;
            &&& spec_match_byte(s, i, 123) == Some(o1)
            &&& spec_parse_string(s, o1) == Some((lit_start(), o2 - 1))
            &&& spec_match_byte(s, o2 - 1, 58) == Some(o2)
            &&& spec_parse_number(s, o2) == Some((w.start, o3))
        }),
{
    let r = render_word(w);
    let rl = r.len() as int;
    assert forall|k: int| i <= k < i + rl implies #[trigger] s[k] == r[k - i] by {
        assert(r[k - i] == s.subrange(i, i + rl)[k - i]);
    }
    let o1 = i + 1;
    let o2 = o1 + 8;
    let o3 = o2 + w.start.len() as int;
    let o4 = o3 + 1;
    let o5 = o4 + 6;
    let o6 = o5 + w.end.len() as int;
    assert(rl == 1 + 8 + w.start.len() + 1 + 6 + w.end.len() + 1 + 7 + render_string(
        w.text,
    ).len() + 1 + 13 + w.confidence.len() + 1);
    assert(s[i] == r[0]);
    assert(r[0] == 123);
    assert(skip_ws(s, i) == i);
    assert forall|m: int| 0 <= m < 8 implies s.subrange(o1, o1 + 8)[m] == qkey(lit_start())[m]
        by {
        assert(s[o1 + m] == r[o1 + m - i]);
        assert(r[o1 + m - i] == qkey(lit_start())[m]);
    }
    assert(s.subrange(o1, o1 + 8) =~= qkey(lit_start()));
    lemma_parse_key_at(s, o1, lit_start());
    assert forall|m: int| 0 <= m < w.start.len() implies s.subrange(o2, o3)[m] == w.start[m] by {
        assert(s[o2 + m] == r[o2 + m - i]);
        assert(r[o2 + m - i] == w.start[m]);
    }
    assert(s.subrange(o2, o3) =~= w.start);
    assert(s[o3] == r[o3 - i]);
    assert(r[o3 - i] == 44);
    lemma_parse_number_at(s, o2, w.start);
}

#[verifier::rlimit(100)]
#[verifier::spinoff_prover]
proof fn lemma_parse_word_at_front2(s: Seq<u8>, i: int, w: WordV)
    requires
        wf_word(w),
        0 <= i,
        i + render_word(w).len() <= s.len(),
        s.subrange(i, i + render_word(w).len()) == render_word(w),
    ensures
        ({
            let o1 = i + 1;
            let o2 = o1 + 8;
            let o3 = o2 + w.start.len() as int;
            let o4 = o3 + 1;
            let o5 = o4 + 6;
            let o6 = o5 + w.end.len() as int;
            &&& spec_match_byte(s, o3, 44) == Some(o4)
            &&& spec_parse_string(s, o4) == Some((lit_end(), o5 - 1))
            &&& spec_match_byte(s, o5 - 1, 58) == Some(o5)
            &&& spec_parse_number(s, o5) == Some((w.end, o6))
        }),
{
    let r = render_word(w);
    let rl = r.len() as int;
    assert forall|k: int| i <= k < i + rl implies #[trigger] s[k] == r[k - i] by {
        assert(r[k - i] == s.subrange(i, i + rl)[k - i]);
    }
    let o1 = i + 1;
    let o2 = o1 + 8;
    let o3 = o2 + w.start.len() as int;
    let o4 = o3 + 1;
    let o5 = o4 + 6;
    let o6 = o5 + w.end.len() as int;
    assert(rl == 1 + 8 + w.start.len() + 1 + 6 + w.end.len() + 1 + 7 + render_string(
        w.text,
    ).len() + 1 + 13 + w.confidence.len() + 1);
    assert(s[o3] == r[o3 - i]);
    assert(r[o3 - i] == 44);
    assert(skip_ws(s, o3) == o3);
    assert forall|m: int| 0 <= m < 6 implies s.subrange(o4, o4 + 6)[m] == qkey(lit_end())[m] by {
        assert(s[o4 + m] == r[o4 + m - i]);
        assert(r[o4 + m - i] == qkey(lit_end())[m]);
    }
    assert(s.subrange(o4, o4 + 6) =~= qkey(lit_end()));
    lemma_parse_key_at(s, o4, lit_end());
    assert forall|m: int| 0 <= m < w.end.len() implies s.subrange(o5, o6)[m] == w.end[m] by {
        assert(s[o5 + m] == r[o5 + m - i]);
        assert(r[o5 + m - i] == w.end[m]);
    }
    assert(s.subrange(o5, o6) =~= w.end);
    assert(s[o6] == r[o6 - i]);
    assert(r[o6 - i] == 44);
    lemma_parse_number_at(s, o5, w.end);
}

/// Middle part of a printed word: the `text` field.
#[verifier::rlimit(100)]
#[verifier::spinoff_prover]
proof fn lemma_parse_word_at_mid(s: Seq<u8>, i: int, w: WordV)
    requires
        wf_word(w),
        0 <= i,
        i + render_word(w).len() <= s.len(),
        s.subrange(i, i + render_word(w).len()) == render_word(w),
    ensures
        ({
            let o6 = i + 16 + w.start.len() + w.end.len();
            let o7 = o6 + 1;
            let o8 = o7 + 7;
            let o9 = o8 + render_string(w.text).len() as int;
            &&& spec_match_byte(s, o6, 44) == Some(o7)
            &&& spec_parse_string(s, o7) == Some((lit_text(), o8 - 1))
            &&& spec_match_byte(s, o8 - 1, 58) == Some(o8)
            &&& spec_parse_string(s, o8) == Some((w.text, o9))
        }),
{
    let r = render_word(w);
    let rl = r.len() as int;
    assert forall|k: int| i <= k < i + rl implies #[trigger] s[k] == r[k - i] by {
        assert(r[k - i] == s.subrange(i, i + rl)[k - i]);
    }
    let o6 = i + 16 + w.start.len() as int + w.end.len() as int;
    let o7 = o6 + 1;
    let o8 = o7 + 7;
    let o9 = o8 + render_string(w.text).len() as int;
    assert(rl == 1 + 8 + w.start.len() + 1 + 6 + w.end.len() + 1 + 7 + render_string(
        w.text,
    ).len() + 1 + 13 + w.confidence.len() + 1);
    assert(s[o6] == r[o6 - i]);
    assert(r[o6 - i] == 44);
    assert(skip_ws(s, o6) == o6);
    assert forall|m: int| 0 <= m < 7 implies s.subrange(o7, o7 + 7)[m] == qkey(lit_text())[m]
        by {
        assert(s[o7 + m] == r[o7 + m - i]);
        assert(r[o7 + m - i] == qkey(lit_text())[m]);
    }
    assert(s.subrange(o7, o7 + 7) =~= qkey(lit_text()));
    lemma_parse_key_at(s, o7, lit_text());
    assert forall|m: int| 0 <= m < render_string(w.text).len() implies s.subrange(o8, o9)[m]
        == render_string(w.text)[m] by {
        assert(s[o8 + m] == r[o8 + m - i]);
        assert(r[o8 + m - i] == render_string(w.text)[m]);
    }
    assert(s.subrange(o8, o9) =~= render_string(w.text));
    lemma_parse_string_at(s, o8, w.text);
}

/// Last part of a printed word: the `confidence` field and closing brace.
#[verifier::rlimit(100)]
#[verifier::spinoff_prover]
proof fn lemma_parse_word_at_back(s: Seq<u8>, i: int, w: WordV)
    requires
        wf_word(w),
        0 <= i,
        i + render_word(w).len() <= s.len(),
        s.subrange(i, i + render_word(w).len()) == render_word(w),
    ensures
        ({
            let o9 = i + 24 + w.start.len() + w.end.len() + render_string(w.text).len();
            let o10 = o9 + 1;
            let o11 = o10 + 13;
            let o12 = o11 + w.confidence.len() as int;
            &&& spec_match_byte(s, o9, 44) == Some(o10)
            &&& spec_parse_string(s, o10) == Some((lit_confidence(), o11 - 1))
            &&& spec_match_byte(s, o11 - 1, 58) == Some(o11)
            &&& spec_parse_number(s, o11) == Some((w.confidence, o12))
            &&& spec_match_byte(s, o12, 125) == Some(i + render_word(w).len())
        }),
{
    let r = render_word(w);
    let rl = r.len() as int;
    assert forall|k: int| i <= k < i + rl implies #[trigger] s[k] == r[k - i] by {
        assert(r[k - i] == s.subrange(i, i + rl)[k - i]);
    }
    let o9 = i + 24 + w.start.len() as int + w.end.len() as int + render_string(
        w.text,
    ).len() as int;
    let o10 = o9 + 1;
    let o11 = o10 + 13;
    let o12 = o11 + w.confidence.len() as int;
    assert(rl == 1 + 8 + w.start.len() + 1 + 6 + w.end.len() + 1 + 7 + render_string(
        w.text,
    ).len() + 1 + 13 + w.confidence.len() + 1);
    assert(s[o9] == r[o9 - i]);
    assert(r[o9 - i] == 44);
    assert(skip_ws(s, o9) == o9);
    assert forall|m: int| 0 <= m < 13 implies s.subrange(o10, o10 + 13)[m] == qkey(
        lit_confidence(),
    )[m] by {
        assert(s[o10 + m] == r[o10 + m - i]);
        assert(r[o10 + m - i] == qkey(lit_confidence())[m]);
    }
    assert(s.subrange(o10, o10 + 13) =~= qkey(lit_confidence()));
    lemma_parse_key_at(s, o10, lit_confidence());
    assert forall|m: int| 0 <= m < w.confidence.len() implies s.subrange(o11, o12)[m]
        == w.confidence[m] by {
        assert(s[o11 + m] == r[o11 + m - i]);
        assert(r[o11 + m - i] == w.confidence[m]);
    }
    assert(s.subrange(o11, o12) =~= w.confidence);
    assert(s[o12] == r[o12 - i]);
    assert(r[o12 - i] == 125);
    lemma_parse_number_at(s, o11, w.confidence);
    assert(skip_ws(s, o12) == o12);
}

/// The printed `start` and `end` members of a word parse back in turn.
#[verifier::rlimit(100)]
#[verifier::spinoff_prover]
proof fn lemma_word_walk_front(s: Seq<u8>, i: int, w: WordV)
    requires
        wf_word(w),
        0 <= i,
        i + render_word(w).len() <= s.len(),
        s.subrange(i, i + render_word(w).len()) == render_word(w),
    ensures
        ({
            let o1 = i + 1;
            let o6 = i + 16 + w.start.len() + w.end.len();
            spec_word_members(s, o1, false, None, None, None, None) == spec_word_members(
                s,
                o6,
                true,
                Some(w.start),
                Some(w.end),
                None,
                None,
            )
        }),
{
    reveal(spec_word_members);
    lemma_keys_distinct();
    let r = render_word(w);
    let rl = r.len() as int;
    assert forall|k: int| i <= k < i + rl implies #[trigger] s[k] == r[k - i] by {
        assert(r[k - i] == s.subrange(i, i + rl)[k - i]);
    }
    assert(rl == 1 + 8 + w.start.len() + 1 + 6 + w.end.len() + 1 + 7 + render_string(
        w.text,
    ).len() + 1 + 13 + w.confidence.len() + 1);
    let o1 = i + 1;
    let o2 = o1 + 8;
    let o3 = o2 + w.start.len() as int;
    let o4 = o3 + 1;
    let o5 = o4 + 6;
    let o6 = o5 + w.end.len() as int;
    let o7 = o6 + 1;
    let o8 = o7 + 7;
    let o9 = o8 + render_string(w.text).len() as int;
    let o10 = o9 + 1;
    let o11 = o10 + 13;
    let o12 = o11 + w.confidence.len() as int;
    lemma_parse_word_at_front1(s, i, w);
    lemma_parse_word_at_front2(s, i, w);
    assert(s[o1] == r[o1 - i] && r[o1 - i] == 34);
    assert(s[o3] == r[o3 - i] && r[o3 - i] == 44);
    assert(s[o4] == r[o4 - i] && r[o4 - i] == 34);
    assert(spec_word_members(s, o1, false, None, None, None, None) == spec_word_members(
        s,
        o3,
        true,
        Some(w.start),
        None,
        None,
        None,
    ));
    assert(spec_word_members(s, o3, true, Some(w.start), None, None, None)
        == spec_word_members(s, o4, false, Some(w.start), None, None, None));
    assert(spec_word_members(s, o4, false, Some(w.start), None, None, None)
        == spec_word_members(s, o6, true, Some(w.start), Some(w.end), None, None));
}

/// The printed `text` and `confidence` members, and the closing brace,
/// complete the word.
#[verifier::rlimit(100)]
#[verifier::spinoff_prover]
proof fn lemma_word_walk_back(s: Seq<u8>, i: int, w: WordV)
    requires
        wf_word(w),
        0 <= i,
        i + render_word(w).len() <= s.len(),
        s.subrange(i, i + render_word(w).len()) == render_word(w),
    ensures
        ({
            let o6 = i + 16 + w.start.len() + w.end.len();
            spec_word_members(s, o6, true, Some(w.start), Some(w.end), None, None) == Some(
                (w, i + render_word(w).len()),
            )
        }),
{
    reveal(spec_word_members);
    lemma_keys_distinct();
    let r = render_word(w);
    let rl = r.len() as int;
    assert forall|k: int| i <= k < i + rl implies #[trigger] s[k] == r[k - i] by {
        assert(r[k - i] == s.subrange(i, i + rl)[k - i]);
    }
    assert(rl == 1 + 8 + w.start.len() + 1 + 6 + w.end.len() + 1 + 7 + render_string(
        w.text,
    ).len() + 1 + 13 + w.confidence.len() + 1);
    let o1 = i + 1;
    let o2 = o1 + 8;
    let o3 = o2 + w.start.len() as int;
    let o4 = o3 + 1;
    let o5 = o4 + 6;
    let o6 = o5 + w.end.len() as int;
    let o7 = o6 + 1;
    let o8 = o7 + 7;
    let o9 = o8 + render_string(w.text).len() as int;
    let o10 = o9 + 1;
    let o11 = o10 + 13;
    let o12 = o11 + w.confidence.len() as int;
    lemma_parse_word_at_mid(s, i, w);
    lemma_parse_word_at_back(s, i, w);
    assert(s[o6] == r[o6 - i] && r[o6 - i] == 44);
    assert(s[o7] == r[o7 - i] && r[o7 - i] == 34);
    assert(s[o9] == r[o9 - i] && r[o9 - i] == 44);
    assert(s[o10] == r[o10 - i] && r[o10 - i] == 34);
    assert(s[o12] == r[o12 - i] && r[o12 - i] == 125);
    assert(spec_word_members(s, o6, true, Some(w.start), Some(w.end), None, None)
        == spec_word_members(s, o7, false, Some(w.start), Some(w.end), None, None));
    assert(spec_word_members(s, o7, false, Some(w.start), Some(w.end), None, None)
        == spec_word_members(s, o9, true, Some(w.start), Some(w.end), Some(w.text), None));
    assert(spec_word_members(s, o9, true, Some(w.start), Some(w.end), Some(w.text), None)
        == spec_word_members(s, o10, false, Some(w.start), Some(w.end), Some(w.text), None));
    assert(spec_word_members(s, o10, false, Some(w.start), Some(w.end), Some(w.text), None)
        == spec_word_members(
        s,
        o12,
        true,
        Some(w.start),
        Some(w.end),
        Some(w.text),
        Some(w.confidence),
    ));
    assert(spec_word_members(
        s,
        o12,
        true,
        Some(w.start),
        Some(w.end),
        Some(w.text),
        Some(w.confidence),
    ) == Some(
        (WordV { start: w.start, end: w.end, text: w.text, confidence: w.confidence }, o12 + 1),
    ));
    assert(WordV { start: w.start, end: w.end, text: w.text, confidence: w.confidence } == w);
}

/// A printed word embedded at `i` parses back to the same word.
#[verifier::rlimit(100)]
#[verifier::spinoff_prover]
proof fn lemma_parse_word_at(s: Seq<u8>, i: int, w: WordV)
    requires
        wf_word(w),
        0 <= i,
        i + render_word(w).len() <= s.len(),
        s.subrange(i, i + render_word(w).len()) == render_word(w),
    ensures
        spec_parse_word(s, i) == Some((w, i + render_word(w).len())),
{
    reveal(spec_parse_word);
    lemma_parse_word_at_front1(s, i, w);
    lemma_word_walk_front(s, i, w);
    lemma_word_walk_back(s, i, w);
}

/// What remains of a printed `words` array after some leading elements: the
/// closing bracket, or a comma and each further element in turn.
#[verifier::opaque]
pub open spec fn rest_render_words(ws: Seq<WordV>) -> Seq<u8>
    decreases ws.len(),
{
    if ws.len() == 0 {
        seq![93u8]
    } else {
        seq![44u8] + render_word(ws[0]) + rest_render_words(ws.drop_first())
    }
}

#[verifier::rlimit(100)]
#[verifier::spinoff_prover]
proof fn lemma_items_close_words(ws: Seq<WordV>)
    requires
        ws.len() > 0,
    ensures
        render_words_items(ws) + seq![93u8] == render_word(ws[0]) + rest_render_words(ws.drop_first()),
    decreases ws.len(),
{
    reveal(rest_render_words);
    if ws.len() == 1 {
        assert(rest_render_words(ws.drop_first()) == seq![93u8]);
        assert(render_words_items(ws) == render_word(ws[0]));
    } else {
        let d = ws.drop_first();
        lemma_items_close_words(d);
        assert(render_words_items(ws) == render_word(ws[0]) + seq![44u8] + render_words_items(d));
        assert(rest_render_words(d) == seq![44u8] + render_word(d[0]) + rest_render_words(d.drop_first()));
        assert(((render_word(ws[0]) + seq![44u8]) + render_words_items(d)) + seq![93u8] =~= render_word(ws[0])
            + (seq![44u8] + (render_words_items(d) + seq![93u8])));
        assert(seq![44u8] + (render_word(d[0]) + rest_render_words(d.drop_first())) =~= (seq![44u8]
            + render_word(d[0])) + rest_render_words(d.drop_first()));
    }
}

#[verifier::rlimit(100)]
#[verifier::spinoff_prover]
proof fn lemma_parse_words_rest_at(s: Seq<u8>, i: int, ws: Seq<WordV>)
    requires
        forall|j: int| 0 <= j < ws.len() ==> wf_word(#[trigger] ws[j]),
        0 <= i,
        i + rest_render_words(ws).len() <= s.len(),
        s.subrange(i, i + rest_render_words(ws).len()) == rest_render_words(ws),
    ensures
        spec_parse_words_rest(s, i) == Some((ws, i + rest_render_words(ws).len())),
    decreases ws.len(),
{
    reveal(rest_render_words);
    let r = rest_render_words(ws);
    let rl = r.len() as int;
    assert forall|k: int| i <= k < i + rl implies #[trigger] s[k] == r[k - i] by {
        assert(r[k - i] == s.subrange(i, i + rl)[k - i]);
    }
    if ws.len() == 0 {
        assert(s[i] == 93);
        assert(skip_ws(s, i) == i);
        assert(ws =~= Seq::<WordV>::empty());
    } else {
        let el = render_word(ws[0]);
        assert(s[i] == r[0]);
        assert(r[0] == 44);
        assert(skip_ws(s, i) == i);
        assert forall|m: int| 0 <= m < el.len() implies s.subrange(i + 1, i + 1 + el.len())[m]
            == el[m] by {
            assert(s[i + 1 + m] == r[m + 1]);
            assert(r[m + 1] == el[m]);
        }
        assert(s.subrange(i + 1, i + 1 + el.len()) =~= el);
        let k = i + 1 + el.len() as int;
        let tail = rest_render_words(ws.drop_first());
        assert(s[k] == r[k - i]);
        assert(r[k - i] == tail[0]);
        assert(tail[0] == 93 || tail[0] == 44);
        lemma_parse_word_at(s, i + 1, ws[0]);
        assert forall|m: int| 0 <= m < tail.len() implies s.subrange(k, k + tail.len())[m]
            == tail[m] by {
            assert(s[k + m] == r[k - i + m]);
            assert(r[k - i + m] == tail[m]);
        }
        assert(s.subrange(k, k + tail.len()) =~= tail);
        lemma_parse_words_rest_at(s, k, ws.drop_first());
        assert(seq![ws[0]] + ws.drop_first() =~= ws);
    }
}

#[verifier::rlimit(100)]
#[verifier::spinoff_prover]
proof fn lemma_parse_words_at(s: Seq<u8>, i: int, ws: Seq<WordV>)
    requires
        forall|j: int| 0 <= j < ws.len() ==> wf_word(#[trigger] ws[j]),
        0 <= i,
        i + render_words(ws).len() <= s.len(),
        s.subrange(i, i + render_words(ws).len()) == render_words(ws),
    ensures
        spec_parse_words(s, i) == Some((ws, i + render_words(ws).len())),
{
    reveal(rest_render_words);
    let r = render_words(ws);
    let rl = r.len() as int;
    assert forall|k: int| i <= k < i + rl implies #[trigger] s[k] == r[k - i] by {
        assert(r[k - i] == s.subrange(i, i + rl)[k - i]);
    }
    assert(s[i] == r[0]);
    assert(r[0] == 91);
    assert(skip_ws(s, i) == i);
    assert(spec_match_byte(s, i, 91) == Some(i + 1));
    if ws.len() == 0 {
        assert(render_words_items(ws) == Seq::<u8>::empty());
        assert(r =~= seq![91u8, 93u8]);
        assert(s[i + 1] == 93);
        assert(skip_ws(s, i + 1) == i + 1);
        assert(ws =~= Seq::<WordV>::empty());
    } else {
        lemma_items_close_words(ws);
        let el = render_word(ws[0]);
        let tail = rest_render_words(ws.drop_first());
        assert(r =~= seq![91u8] + (el + tail)) by {
            assert(r == (seq![91u8] + render_words_items(ws)) + seq![93u8]);
            assert((seq![91u8] + render_words_items(ws)) + seq![93u8] =~= seq![91u8]
                + (render_words_items(ws) + seq![93u8]));
        }
        assert(s[i + 1] == r[1]);
        assert(r[1] == el[0]);
        assert(el[0] == 123);
        assert(skip_ws(s, i + 1) == i + 1);
        assert forall|m: int| 0 <= m < el.len() implies s.subrange(i + 1, i + 1 + el.len())[m]
            == el[m] by {
            assert(s[i + 1 + m] == r[m + 1]);
            assert(r[m + 1] == el[m]);
        }
        assert(s.subrange(i + 1, i + 1 + el.len()) =~= el);
        let k = i + 1 + el.len() as int;
        assert(s[k] == r[k - i]);
        assert(r[k - i] == tail[0]);
        assert(tail[0] == 93 || tail[0] == 44);
        lemma_parse_word_at(s, i + 1, ws[0]);
        assert forall|m: int| 0 <= m < tail.len() implies s.subrange(k, k + tail.len())[m]
            == tail[m] by {
            assert(s[k + m] == r[k - i + m]);
            assert(r[k - i + m] == tail[m]);
        }
        assert(s.subrange(k, k + tail.len()) =~= tail);
        lemma_parse_words_rest_at(s, k, ws.drop_first());
        assert(seq![ws[0]] + ws.drop_first() =~= ws);
    }
}


/// What remains of a printed `tokens` array after some leading elements.
#[verifier::opaque]
pub open spec fn rest_render_tokens(ts: Seq<u32>) -> Seq<u8>
    decreases ts.len(),
{
    if ts.len() == 0 {
        seq![93u8]
    } else {
        seq![44u8] + dec_digits(ts[0] as nat) + rest_render_tokens(ts.drop_first())
    }
}

#[verifier::rlimit(100)]
#[verifier::spinoff_prover]
proof fn lemma_items_close_tokens(ts: Seq<u32>)
    requires
        ts.len() > 0,
    ensures
        render_tokens_items(ts) + seq![93u8] == dec_digits(ts[0] as nat) + rest_render_tokens(
            ts.drop_first(),
        ),
    decreases ts.len(),
{
    reveal(rest_render_tokens);
    if ts.len() == 1 {
        assert(rest_render_tokens(ts.drop_first()) == seq![93u8]);
        assert(render_tokens_items(ts) == dec_digits(ts[0] as nat));
    } else {
        let d = ts.drop_first();
        lemma_items_close_tokens(d);
        assert(render_tokens_items(ts) == dec_digits(ts[0] as nat) + seq![44u8]
            + render_tokens_items(d));
        assert(rest_render_tokens(d) == seq![44u8] + dec_digits(d[0] as nat)
            + rest_render_tokens(d.drop_first()));
        assert(((dec_digits(ts[0] as nat) + seq![44u8]) + render_tokens_items(d)) + seq![93u8]
            =~= dec_digits(ts[0] as nat) + (seq![44u8] + (render_tokens_items(d) + seq![93u8])));
        assert(seq![44u8] + (dec_digits(d[0] as nat) + rest_render_tokens(d.drop_first()))
            =~= (seq![44u8] + dec_digits(d[0] as nat)) + rest_render_tokens(d.drop_first()));
    }
}

#[verifier::rlimit(100)]
#[verifier::spinoff_prover]
proof fn lemma_parse_tokens_rest_at(s: Seq<u8>, i: int, ts: Seq<u32>)
    requires
        0 <= i,
        i + rest_render_tokens(ts).len() <= s.len(),
        s.subrange(i, i + rest_render_tokens(ts).len()) == rest_render_tokens(ts),
    ensures
        spec_parse_tokens_rest(s, i) == Some((ts, i + rest_render_tokens(ts).len())),
    decreases ts.len(),
{
    reveal(rest_render_tokens);
    let r = rest_render_tokens(ts);
    let rl = r.len() as int;
    assert forall|k: int| i <= k < i + rl implies #[trigger] s[k] == r[k - i] by {
        assert(r[k - i] == s.subrange(i, i + rl)[k - i]);
    }
    if ts.len() == 0 {
        assert(s[i] == 93);
        assert(skip_ws(s, i) == i);
        assert(ts =~= Seq::<u32>::empty());
    } else {
        let el = dec_digits(ts[0] as nat);
        lemma_dec_digits_props(ts[0] as nat);
        assert(s[i] == r[0]);
        assert(r[0] == 44);
        assert(skip_ws(s, i) == i);
        assert forall|m: int| 0 <= m < el.len() implies s.subrange(i + 1, i + 1 + el.len())[m]
            == el[m] by {
            assert(s[i + 1 + m] == r[m + 1]);
            assert(r[m + 1] == el[m]);
        }
        assert(s.subrange(i + 1, i + 1 + el.len()) =~= el);
        let k = i + 1 + el.len() as int;
        let tail = rest_render_tokens(ts.drop_first());
        assert(s[k] == r[k - i]);
        assert(r[k - i] == tail[0]);
        assert(tail[0] == 93 || tail[0] == 44);
        assert(!is_digit(s[k]));
        lemma_parse_u32_at(s, i + 1, ts[0]);
        assert forall|m: int| 0 <= m < tail.len() implies s.subrange(k, k + tail.len())[m]
            == tail[m] by {
            assert(s[k + m] == r[k - i + m]);
            assert(r[k - i + m] == tail[m]);
        }
        assert(s.subrange(k, k + tail.len()) =~= tail);
        lemma_parse_tokens_rest_at(s, k, ts.drop_first());
        assert(seq![ts[0]] + ts.drop_first() =~= ts);
    }
}

#[verifier::rlimit(100)]
#[verifier::spinoff_prover]
proof fn lemma_parse_tokens_at(s: Seq<u8>, i: int, ts: Seq<u32>)
    requires
        0 <= i,
        i + render_tokens(ts).len() <= s.len(),
        s.subrange(i, i + render_tokens(ts).len()) == render_tokens(ts),
    ensures
        spec_parse_tokens(s, i) == Some((ts, i + render_tokens(ts).len())),
{
    reveal(rest_render_tokens);
    let r = render_tokens(ts);
    let rl = r.len() as int;
    assert forall|k: int| i <= k < i + rl implies #[trigger] s[k] == r[k - i] by {
        assert(r[k - i] == s.subrange(i, i + rl)[k - i]);
    }
    assert(s[i] == r[0]);
    assert(r[0] == 91);
    assert(skip_ws(s, i) == i);
    assert(spec_match_byte(s, i, 91) == Some(i + 1));
    if ts.len() == 0 {
        assert(render_tokens_items(ts) == Seq::<u8>::empty());
        assert(r =~= seq![91u8, 93u8]);
        assert(s[i + 1] == 93);
        assert(skip_ws(s, i + 1) == i + 1);
        assert(ts =~= Seq::<u32>::empty());
    } else {
        lemma_items_close_tokens(ts);
        let el = dec_digits(ts[0] as nat);
        lemma_dec_digits_props(ts[0] as nat);
        let tail = rest_render_tokens(ts.drop_first());
        assert(r =~= seq![91u8] + (el + tail)) by {
            assert(r == (seq![91u8] + render_tokens_items(ts)) + seq![93u8]);
            assert((seq![91u8] + render_tokens_items(ts)) + seq![93u8] =~= seq![91u8]
                + (render_tokens_items(ts) + seq![93u8]));
        }
        assert(s[i + 1] == r[1]);
        assert(r[1] == el[0]);
        assert(is_digit(el[0]));
        assert(skip_ws(s, i + 1) == i + 1);
        assert(s[i + 1] != 93);
        assert forall|m: int| 0 <= m < el.len() implies s.subrange(i + 1, i + 1 + el.len())[m]
            == el[m] by {
            assert(s[i + 1 + m] == r[m + 1]);
            assert(r[m + 1] == el[m]);
        }
        assert(s.subrange(i + 1, i + 1 + el.len()) =~= el);
        let k = i + 1 + el.len() as int;
        assert(s[k] == r[k - i]);
        assert(r[k - i] == tail[0]);
        assert(tail[0] == 93 || tail[0] == 44);
        assert(!is_digit(s[k]));
        lemma_parse_u32_at(s, i + 1, ts[0]);
        assert forall|m: int| 0 <= m < tail.len() implies s.subrange(k, k + tail.len())[m]
            == tail[m] by {
            assert(s[k + m] == r[k - i + m]);
            assert(r[k - i + m] == tail[m]);
        }
        assert(s.subrange(k, k + tail.len()) =~= tail);
        lemma_parse_tokens_rest_at(s, k, ts.drop_first());
        assert(seq![ts[0]] + ts.drop_first() =~= ts);
    }
}

#[verifier::rlimit(100)]
#[verifier::rlimit(100)]
#[verifier::spinoff_prover]
proof fn lemma_parse_segment_part_a1(s: Seq<u8>, i: int, g: SegmentV)
    requires
        wf_segment(g),
        0 <= i,
        i + render_segment(g).len() <= s.len(),
        s.subrange(i, i + render_segment(g).len()) == render_segment(g),
    ensures
        ({
        let o0 = i;
        let o1 = o0 + 1;
        let o2 = o1 + 5;
        let o3 = o2 + dec_digits(g.id as nat).len() as int;
            &&& spec_match_byte(s, o0, 123) == Some(o1)
            &&& spec_parse_string(s, o1) == Some((lit_id(), o2 - 1))
            &&& spec_match_byte(s, o2 - 1, 58) == Some(o2)
            &&& spec_parse_u32(s, o2) == Some((g.id, o3))
        }),
{
    let r = render_segment(g);
    let rl = r.len() as int;
    assert forall|k: int| i <= k < i + rl implies #[trigger] s[k] == r[k - i] by {
        assert(r[k - i] == s.subrange(i, i + rl)[k - i]);
    }
    assert(rl == 1 + 5 + dec_digits(g.id as nat).len() + 1 + 7 + dec_digits(g.seek as nat).len() + 1 + 8 + g.start.len() + 1 + 6 + g.end.len() + 1 + 7 + render_string(g.text).len() + 1 + 9 + render_tokens(g.tokens).len() + 1 + 13 + g.confidence.len() + 1 + 8 + render_words(g.words).len() + 1);
    let o0 = i;
    let o1 = o0 + 1;
    let o2 = o1 + 5;
    let o3 = o2 + dec_digits(g.id as nat).len() as int;
    assert(s[o0] == r[o0 - i]);
    assert(r[o0 - i] == 123);
    assert(skip_ws(s, o0) == o0);
    assert forall|m: int| 0 <= m < 5 implies s.subrange(o1, o1 + 5)[m] == qkey(
        lit_id(),
    )[m] by {
        assert(s[o1 + m] == r[o1 + m - i]);
        assert(r[o1 + m - i] == qkey(lit_id())[m]);
    }
    assert(s.subrange(o1, o1 + 5) =~= qkey(lit_id()));
    lemma_parse_key_at(s, o1, lit_id());
    lemma_dec_digits_props(g.id as nat);
    assert forall|m: int| 0 <= m < dec_digits(g.id as nat).len() implies s.subrange(
        o2,
        o3,
    )[m] == dec_digits(g.id as nat)[m] by {
        assert(s[o2 + m] == r[o2 + m - i]);
        assert(r[o2 + m - i] == dec_digits(g.id as nat)[m]);
    }
    assert(s.subrange(o2, o3) =~= dec_digits(g.id as nat));
    assert(s[o3] == r[o3 - i]);
    assert(r[o3 - i] == 44);
    lemma_parse_u32_at(s, o2, g.id);
}

#[verifier::rlimit(100)]
#[verifier::spinoff_prover]
proof fn lemma_parse_segment_part_a2(s: Seq<u8>, i: int, g: SegmentV)
    requires
        wf_segment(g),
        0 <= i,
        i + render_segment(g).len() <= s.len(),
        s.subrange(i, i + render_segment(g).len()) == render_segment(g),
    ensures
        ({
        let o3 = i + 1 + 5 + dec_digits(g.id as nat).len() as int;
        let o4 = o3 + 1;
        let o5 = o4 + 7;
        let o6 = o5 + dec_digits(g.seek as nat).len() as int;
            &&& spec_match_byte(s, o3, 44) == Some(o4)
            &&& spec_parse_string(s, o4) == Some((lit_seek(), o5 - 1))
            &&& spec_match_byte(s, o5 - 1, 58) == Some(o5)
            &&& spec_parse_u32(s, o5) == Some((g.seek, o6))
        }),
{
    let r = render_segment(g);
    let rl = r.len() as int;
    assert forall|k: int| i <= k < i + rl implies #[trigger] s[k] == r[k - i] by {
        assert(r[k - i] == s.subrange(i, i + rl)[k - i]);
    }
    assert(rl == 1 + 5 + dec_digits(g.id as nat).len() + 1 + 7 + dec_digits(g.seek as nat).len() + 1 + 8 + g.start.len() + 1 + 6 + g.end.len() + 1 + 7 + render_string(g.text).len() + 1 + 9 + render_tokens(g.tokens).len() + 1 + 13 + g.confidence.len() + 1 + 8 + render_words(g.words).len() + 1);
    let o3 = i + 1 + 5 + dec_digits(g.id as nat).len() as int;
    let o4 = o3 + 1;
    let o5 = o4 + 7;
    let o6 = o5 + dec_digits(g.seek as nat).len() as int;
    assert(s[o3] == r[o3 - i]);
    assert(r[o3 - i] == 44);
    assert(skip_ws(s, o3) == o3);
    assert forall|m: int| 0 <= m < 7 implies s.subrange(o4, o4 + 7)[m] == qkey(
        lit_seek(),
    )[m] by {
        assert(s[o4 + m] == r[o4 + m - i]);
        assert(r[o4 + m - i] == qkey(lit_seek())[m]);
    }
    assert(s.subrange(o4, o4 + 7) =~= qkey(lit_seek()));
    lemma_parse_key_at(s, o4, lit_seek());
    lemma_dec_digits_props(g.seek as nat);
    assert forall|m: int| 0 <= m < dec_digits(g.seek as nat).len() implies s.subrange(
        o5,
        o6,
    )[m] == dec_digits(g.seek as nat)[m] by {
        assert(s[o5 + m] == r[o5 + m - i]);
        assert(r[o5 + m - i] == dec_digits(g.seek as nat)[m]);
    }
    assert(s.subrange(o5, o6) =~= dec_digits(g.seek as nat));
    assert(s[o6] == r[o6 - i]);
    assert(r[o6 - i] == 44);
    lemma_parse_u32_at(s, o5, g.seek);
}

#[verifier::rlimit(100)]
#[verifier::spinoff_prover]
proof fn lemma_parse_segment_part_b1(s: Seq<u8>, i: int, g: SegmentV)
    requires
        wf_segment(g),
        0 <= i,
        i + render_segment(g).len() <= s.len(),
        s.subrange(i, i + render_segment(g).len()) == render_segment(g),
    ensures
        ({
        let o6 = i + 1 + 5 + dec_digits(g.id as nat).len() as int + 1 + 7 + dec_digits(g.seek as nat).len() as int;
        let o7 = o6 + 1;
        let o8 = o7 + 8;
        let o9 = o8 + g.start.len() as int;
            &&& spec_match_byte(s, o6, 44) == Some(o7)
            &&& spec_parse_string(s, o7) == Some((lit_start(), o8 - 1))
            &&& spec_match_byte(s, o8 - 1, 58) == Some(o8)
            &&& spec_parse_number(s, o8) == Some((g.start, o9))
        }),
{
    let r = render_segment(g);
    let rl = r.len() as int;
    assert forall|k: int| i <= k < i + rl implies #[trigger] s[k] == r[k - i] by {
        assert(r[k - i] == s.subrange(i, i + rl)[k - i]);
    }
    assert(rl == 1 + 5 + dec_digits(g.id as nat).len() + 1 + 7 + dec_digits(g.seek as nat).len() + 1 + 8 + g.start.len() + 1 + 6 + g.end.len() + 1 + 7 + render_string(g.text).len() + 1 + 9 + render_tokens(g.tokens).len() + 1 + 13 + g.confidence.len() + 1 + 8 + render_words(g.words).len() + 1);
    let o6 = i + 1 + 5 + dec_digits(g.id as nat).len() as int + 1 + 7 + dec_digits(g.seek as nat).len() as int;
    let o7 = o6 + 1;
    let o8 = o7 + 8;
    let o9 = o8 + g.start.len() as int;
    assert(s[o6] == r[o6 - i]);
    assert(r[o6 - i] == 44);
    assert(skip_ws(s, o6) == o6);
    assert forall|m: int| 0 <= m < 8 implies s.subrange(o7, o7 + 8)[m] == qkey(
        lit_start(),
    )[m] by {
        assert(s[o7 + m] == r[o7 + m - i]);
        assert(r[o7 + m - i] == qkey(lit_start())[m]);
    }
    assert(s.subrange(o7, o7 + 8) =~= qkey(lit_start()));
    lemma_parse_key_at(s, o7, lit_start());
    assert forall|m: int| 0 <= m < g.start.len() implies s.subrange(o8, o9)[m] == g.start[m]
        by {
        assert(s[o8 + m] == r[o8 + m - i]);
        assert(r[o8 + m - i] == g.start[m]);
    }
    assert(s.subrange(o8, o9) =~= g.start);
    assert(s[o9] == r[o9 - i]);
    assert(r[o9 - i] == 44);
    lemma_parse_number_at(s, o8, g.start);
}

#[verifier::rlimit(100)]
#[verifier::spinoff_prover]
proof fn lemma_parse_segment_part_b2(s: Seq<u8>, i: int, g: SegmentV)
    requires
        wf_segment(g),
        0 <= i,
        i + render_segment(g).len() <= s.len(),
        s.subrange(i, i + render_segment(g).len()) == render_segment(g),
    ensures
        ({
        let o9 = i + 1 + 5 + dec_digits(g.id as nat).len() as int + 1 + 7 + dec_digits(g.seek as nat).len() as int + 1 + 8 + g.start.len() as int;
        let o10 = o9 + 1;
        let o11 = o10 + 6;
        let o12 = o11 + g.end.len() as int;
            &&& spec_match_byte(s, o9, 44) == Some(o10)
            &&& spec_parse_string(s, o10) == Some((lit_end(), o11 - 1))
            &&& spec_match_byte(s, o11 - 1, 58) == Some(o11)
            &&& spec_parse_number(s, o11) == Some((g.end, o12))
        }),
{
    let r = render_segment(g);
    let rl = r.len() as int;
    assert forall|k: int| i <= k < i + rl implies #[trigger] s[k] == r[k - i] by {
        assert(r[k - i] == s.subrange(i, i + rl)[k - i]);
    }
    assert(rl == 1 + 5 + dec_digits(g.id as nat).len() + 1 + 7 + dec_digits(g.seek as nat).len() + 1 + 8 + g.start.len() + 1 + 6 + g.end.len() + 1 + 7 + render_string(g.text).len() + 1 + 9 + render_tokens(g.tokens).len() + 1 + 13 + g.confidence.len() + 1 + 8 + render_words(g.words).len() + 1);
    let o9 = i + 1 + 5 + dec_digits(g.id as nat).len() as int + 1 + 7 + dec_digits(g.seek as nat).len() as int + 1 + 8 + g.start.len() as int;
    let o10 = o9 + 1;
    let o11 = o10 + 6;
    let o12 = o11 + g.end.len() as int;
    assert(s[o9] == r[o9 - i]);
    assert(r[o9 - i] == 44);
    assert(skip_ws(s, o9) == o9);
    assert forall|m: int| 0 <= m < 6 implies s.subrange(o10, o10 + 6)[m] == qkey(
        lit_end(),
    )[m] by {
        assert(s[o10 + m] == r[o10 + m - i]);
        assert(r[o10 + m - i] == qkey(lit_end())[m]);
    }
    assert(s.subrange(o10, o10 + 6) =~= qkey(lit_end()));
    lemma_parse_key_at(s, o10, lit_end());
    assert forall|m: int| 0 <= m < g.end.len() implies s.subrange(o11, o12)[m] == g.end[m]
        by {
        assert(s[o11 + m] == r[o11 + m - i]);
        assert(r[o11 + m - i] == g.end[m]);
    }
    assert(s.subrange(o11, o12) =~= g.end);
    assert(s[o12] == r[o12 - i]);
    assert(r[o12 - i] == 44);
    lemma_parse_number_at(s, o11, g.end);
}

#[verifier::rlimit(100)]
#[verifier::spinoff_prover]
proof fn lemma_parse_segment_part_c1(s: Seq<u8>, i: int, g: SegmentV)
    requires
        wf_segment(g),
        0 <= i,
        i + render_segment(g).len() <= s.len(),
        s.subrange(i, i + render_segment(g).len()) == render_segment(g),
    ensures
        ({
        let o12 = i + 1 + 5 + dec_digits(g.id as nat).len() as int + 1 + 7 + dec_digits(g.seek as nat).len() as int + 1 + 8 + g.start.len() as int + 1 + 6 + g.end.len() as int;
        let o13 = o12 + 1;
        let o14 = o13 + 7;
        let o15 = o14 + render_string(g.text).len() as int;
            &&& spec_match_byte(s, o12, 44) == Some(o13)
            &&& spec_parse_string(s, o13) == Some((lit_text(), o14 - 1))
            &&& spec_match_byte(s, o14 - 1, 58) == Some(o14)
            &&& spec_parse_string(s, o14) == Some((g.text, o15))
        }),
{
    let r = render_segment(g);
    let rl = r.len() as int;
    assert forall|k: int| i <= k < i + rl implies #[trigger] s[k] == r[k - i] by {
        assert(r[k - i] == s.subrange(i, i + rl)[k - i]);
    }
    assert(rl == 1 + 5 + dec_digits(g.id as nat).len() + 1 + 7 + dec_digits(g.seek as nat).len() + 1 + 8 + g.start.len() + 1 + 6 + g.end.len() + 1 + 7 + render_string(g.text).len() + 1 + 9 + render_tokens(g.tokens).len() + 1 + 13 + g.confidence.len() + 1 + 8 + render_words(g.words).len() + 1);
    let o12 = i + 1 + 5 + dec_digits(g.id as nat).len() as int + 1 + 7 + dec_digits(g.seek as nat).len() as int + 1 + 8 + g.start.len() as int + 1 + 6 + g.end.len() as int;
    let o13 = o12 + 1;
    let o14 = o13 + 7;
    let o15 = o14 + render_string(g.text).len() as int;
    assert(s[o12] == r[o12 - i]);
    assert(r[o12 - i] == 44);
    assert(skip_ws(s, o12) == o12);
    assert forall|m: int| 0 <= m < 7 implies s.subrange(o13, o13 + 7)[m] == qkey(
        lit_text(),
    )[m] by {
        assert(s[o13 + m] == r[o13 + m - i]);
        assert(r[o13 + m - i] == qkey(lit_text())[m]);
    }
    assert(s.subrange(o13, o13 + 7) =~= qkey(lit_text()));
    lemma_parse_key_at(s, o13, lit_text());
    assert forall|m: int| 0 <= m < render_string(g.text).len() implies s.subrange(
        o14,
        o15,
    )[m] == render_string(g.text)[m] by {
        assert(s[o14 + m] == r[o14 + m - i]);
        assert(r[o14 + m - i] == render_string(g.text)[m]);
    }
    assert(s.subrange(o14, o15) =~= render_string(g.text));
    lemma_parse_string_at(s, o14, g.text);
}

#[verifier::rlimit(100)]
#[verifier::spinoff_prover]
proof fn lemma_parse_segment_part_c2a(s: Seq<u8>, i: int, g: SegmentV)
    requires
        wf_segment(g),
        0 <= i,
        i + render_segment(g).len() <= s.len(),
        s.subrange(i, i + render_segment(g).len()) == render_segment(g),
    ensures
        ({
        let o15 = i + 1 + 5 + dec_digits(g.id as nat).len() as int + 1 + 7 + dec_digits(g.seek as nat).len() as int + 1 + 8 + g.start.len() as int + 1 + 6 + g.end.len() as int + 1 + 7 + render_string(g.text).len() as int;
        let o16 = o15 + 1;
        let o17 = o16 + 9;
        let o18 = o17 + render_tokens(g.tokens).len() as int;
            &&& spec_match_byte(s, o15, 44) == Some(o16)
            &&& spec_parse_string(s, o16) == Some((lit_tokens(), o17 - 1))
            &&& spec_match_byte(s, o17 - 1, 58) == Some(o17)
        }),
{
    let r = render_segment(g);
    let rl = r.len() as int;
    assert forall|k: int| i <= k < i + rl implies #[trigger] s[k] == r[k - i] by {
        assert(r[k - i] == s.subrange(i, i + rl)[k - i]);
    }
    assert(rl == 1 + 5 + dec_digits(g.id as nat).len() + 1 + 7 + dec_digits(g.seek as nat).len() + 1 + 8 + g.start.len() + 1 + 6 + g.end.len() + 1 + 7 + render_string(g.text).len() + 1 + 9 + render_tokens(g.tokens).len() + 1 + 13 + g.confidence.len() + 1 + 8 + render_words(g.words).len() + 1);
    let o15 = i + 1 + 5 + dec_digits(g.id as nat).len() as int + 1 + 7 + dec_digits(g.seek as nat).len() as int + 1 + 8 + g.start.len() as int + 1 + 6 + g.end.len() as int + 1 + 7 + render_string(g.text).len() as int;
    let o16 = o15 + 1;
    let o17 = o16 + 9;
    let o18 = o17 + render_tokens(g.tokens).len() as int;
    assert(s[o15] == r[o15 - i]);
    assert(r[o15 - i] == 44);
    assert(skip_ws(s, o15) == o15);
    assert forall|m: int| 0 <= m < 9 implies s.subrange(o16, o16 + 9)[m] == qkey(
        lit_tokens(),
    )[m] by {
        assert(s[o16 + m] == r[o16 + m - i]);
        assert(r[o16 + m - i] == qkey(lit_tokens())[m]);
    }
    assert(s.subrange(o16, o16 + 9) =~= qkey(lit_tokens()));
    lemma_parse_key_at(s, o16, lit_tokens());
}

#[verifier::rlimit(100)]
#[verifier::spinoff_prover]
proof fn lemma_parse_segment_part_c2b(s: Seq<u8>, i: int, g: SegmentV)
    requires
        wf_segment(g),
        0 <= i,
        i + render_segment(g).len() <= s.len(),
        s.subrange(i, i + render_segment(g).len()) == render_segment(g),
    ensures
        ({
        let o15 = i + 1 + 5 + dec_digits(g.id as nat).len() as int + 1 + 7 + dec_digits(g.seek as nat).len() as int + 1 + 8 + g.start.len() as int + 1 + 6 + g.end.len() as int + 1 + 7 + render_string(g.text).len() as int;
        let o16 = o15 + 1;
        let o17 = o16 + 9;
        let o18 = o17 + render_tokens(g.tokens).len() as int;
            &&& spec_parse_tokens(s, o17) == Some((g.tokens, o18))
        }),
{
    let r = render_segment(g);
    let rl = r.len() as int;
    assert forall|k: int| i <= k < i + rl implies #[trigger] s[k] == r[k - i] by {
        assert(r[k - i] == s.subrange(i, i + rl)[k - i]);
    }
    assert(rl == 1 + 5 + dec_digits(g.id as nat).len() + 1 + 7 + dec_digits(g.seek as nat).len() + 1 + 8 + g.start.len() + 1 + 6 + g.end.len() + 1 + 7 + render_string(g.text).len() + 1 + 9 + render_tokens(g.tokens).len() + 1 + 13 + g.confidence.len() + 1 + 8 + render_words(g.words).len() + 1);
    let o15 = i + 1 + 5 + dec_digits(g.id as nat).len() as int + 1 + 7 + dec_digits(g.seek as nat).len() as int + 1 + 8 + g.start.len() as int + 1 + 6 + g.end.len() as int + 1 + 7 + render_string(g.text).len() as int;
    let o16 = o15 + 1;
    let o17 = o16 + 9;
    let o18 = o17 + render_tokens(g.tokens).len() as int;
    assert forall|m: int| 0 <= m < render_tokens(g.tokens).len() implies s.subrange(
        o17,
        o18,
    )[m] == render_tokens(g.tokens)[m] by {
        assert(s[o17 + m] == r[o17 + m - i]);
        assert(r[o17 + m - i] == render_tokens(g.tokens)[m]);
    }
    assert(s.subrange(o17, o18) =~= render_tokens(g.tokens));
    lemma_parse_tokens_at(s, o17, g.tokens);
}

#[verifier::rlimit(100)]
#[verifier::spinoff_prover]
proof fn lemma_parse_segment_part_d1a1(s: Seq<u8>, i: int, g: SegmentV)
    requires
        wf_segment(g),
        0 <= i,
        i + render_segment(g).len() <= s.len(),
        s.subrange(i, i + render_segment(g).len()) == render_segment(g),
    ensures
        ({
        let o18 = i + 1 + 5 + dec_digits(g.id as nat).len() as int + 1 + 7 + dec_digits(g.seek as nat).len() as int + 1 + 8 + g.start.len() as int + 1 + 6 + g.end.len() as int + 1 + 7 + render_string(g.text).len() as int + 1 + 9 + render_tokens(g.tokens).len() as int;
        let o19 = o18 + 1;
        let o20 = o19 + 13;
        let o21 = o20 + g.confidence.len() as int;
            &&& spec_match_byte(s, o18, 44) == Some(o19)
        }),
{
    let r = render_segment(g);
    let rl = r.len() as int;
    assert forall|k: int| i <= k < i + rl implies #[trigger] s[k] == r[k - i] by {
        assert(r[k - i] == s.subrange(i, i + rl)[k - i]);
    }
    assert(rl == 1 + 5 + dec_digits(g.id as nat).len() + 1 + 7 + dec_digits(g.seek as nat).len() + 1 + 8 + g.start.len() + 1 + 6 + g.end.len() + 1 + 7 + render_string(g.text).len() + 1 + 9 + render_tokens(g.tokens).len() + 1 + 13 + g.confidence.len() + 1 + 8 + render_words(g.words).len() + 1);
    let o18 = i + 1 + 5 + dec_digits(g.id as nat).len() as int + 1 + 7 + dec_digits(g.seek as nat).len() as int + 1 + 8 + g.start.len() as int + 1 + 6 + g.end.len() as int + 1 + 7 + render_string(g.text).len() as int + 1 + 9 + render_tokens(g.tokens).len() as int;
    let o19 = o18 + 1;
    let o20 = o19 + 13;
    let o21 = o20 + g.confidence.len() as int;
    assert(s[o18] == r[o18 - i]);
    assert(r[o18 - i] == 44);
    assert(skip_ws(s, o18) == o18);
}

#[verifier::rlimit(100)]
#[verifier::spinoff_prover]
proof fn lemma_segment_conf_key_range(s: Seq<u8>, i: int, g: SegmentV)
    requires
        wf_segment(g),
        0 <= i,
        i + render_segment(g).len() <= s.len(),
        s.subrange(i, i + render_segment(g).len()) == render_segment(g),
    ensures
        ({
            let o19 = i + 1 + 5 + dec_digits(g.id as nat).len() as int + 1 + 7 + dec_digits(g.seek as nat).len() as int + 1 + 8 + g.start.len() as int + 1 + 6 + g.end.len() as int + 1 + 7 + render_string(g.text).len() as int + 1 + 9 + render_tokens(g.tokens).len() as int + 1;
            s.subrange(o19, o19 + 13) == qkey(lit_confidence()) && o19 + 16 <= s.len()
        }),
{
    let r = render_segment(g);
    let rl = r.len() as int;
    assert(rl == 1 + 5 + dec_digits(g.id as nat).len() + 1 + 7 + dec_digits(g.seek as nat).len() + 1 + 8 + g.start.len() + 1 + 6 + g.end.len() + 1 + 7 + render_string(g.text).len() + 1 + 9 + render_tokens(g.tokens).len() + 1 + 13 + g.confidence.len() + 1 + 8 + render_words(g.words).len() + 1);
    let o19 = i + 1 + 5 + dec_digits(g.id as nat).len() as int + 1 + 7 + dec_digits(g.seek as nat).len() as int + 1 + 8 + g.start.len() as int + 1 + 6 + g.end.len() as int + 1 + 7 + render_string(g.text).len() as int + 1 + 9 + render_tokens(g.tokens).len() as int + 1;
    assert forall|m: int| 0 <= m < 13 implies s.subrange(o19, o19 + 13)[m] == qkey(
        lit_confidence(),
    )[m] by {
        assert(s.subrange(o19, o19 + 13)[m] == s.subrange(i, i + rl)[o19 - i + m]);
        assert(r[o19 - i + m] == qkey(lit_confidence())[m]);
    }
    assert(s.subrange(o19, o19 + 13) =~= qkey(lit_confidence()));
}

#[verifier::rlimit(100)]
#[verifier::spinoff_prover]
proof fn lemma_parse_segment_part_d1a2(s: Seq<u8>, i: int, g: SegmentV)
    requires
        wf_segment(g),
        0 <= i,
        i + render_segment(g).len() <= s.len(),
        s.subrange(i, i + render_segment(g).len()) == render_segment(g),
    ensures
        ({
            let o18 = i + 1 + 5 + dec_digits(g.id as nat).len() as int + 1 + 7 + dec_digits(g.seek as nat).len() as int + 1 + 8 + g.start.len() as int + 1 + 6 + g.end.len() as int + 1 + 7 + render_string(g.text).len() as int + 1 + 9 + render_tokens(g.tokens).len() as int;
            let o19 = o18 + 1;
            let o20 = o19 + 13;
            &&& spec_parse_string(s, o19) == Some((lit_confidence(), o20 - 1))
            &&& spec_match_byte(s, o20 - 1, 58) == Some(o20)
        }),
{
    lemma_segment_conf_key_range(s, i, g);
    let o19 = i + 1 + 5 + dec_digits(g.id as nat).len() as int + 1 + 7 + dec_digits(g.seek as nat).len() as int + 1 + 8 + g.start.len() as int + 1 + 6 + g.end.len() as int + 1 + 7 + render_string(g.text).len() as int + 1 + 9 + render_tokens(g.tokens).len() as int + 1;
    lemma_parse_key_at(s, o19, lit_confidence());
}

#[verifier::rlimit(100)]
#[verifier::spinoff_prover]
proof fn lemma_parse_segment_part_d1b(s: Seq<u8>, i: int, g: SegmentV)
    requires
        wf_segment(g),
        0 <= i,
        i + render_segment(g).len() <= s.len(),
        s.subrange(i, i + render_segment(g).len()) == render_segment(g),
    ensures
        ({
        let o18 = i + 1 + 5 + dec_digits(g.id as nat).len() as int + 1 + 7 + dec_digits(g.seek as nat).len() as int + 1 + 8 + g.start.len() as int + 1 + 6 + g.end.len() as int + 1 + 7 + render_string(g.text).len() as int + 1 + 9 + render_tokens(g.tokens).len() as int;
        let o19 = o18 + 1;
        let o20 = o19 + 13;
        let o21 = o20 + g.confidence.len() as int;
            &&& spec_parse_number(s, o20) == Some((g.confidence, o21))
        }),
{
    let r = render_segment(g);
    let rl = r.len() as int;
    assert forall|k: int| i <= k < i + rl implies #[trigger] s[k] == r[k - i] by {
        assert(r[k - i] == s.subrange(i, i + rl)[k - i]);
    }
    assert(rl == 1 + 5 + dec_digits(g.id as nat).len() + 1 + 7 + dec_digits(g.seek as nat).len() + 1 + 8 + g.start.len() + 1 + 6 + g.end.len() + 1 + 7 + render_string(g.text).len() + 1 + 9 + render_tokens(g.tokens).len() + 1 + 13 + g.confidence.len() + 1 + 8 + render_words(g.words).len() + 1);
    let o18 = i + 1 + 5 + dec_digits(g.id as nat).len() as int + 1 + 7 + dec_digits(g.seek as nat).len() as int + 1 + 8 + g.start.len() as int + 1 + 6 + g.end.len() as int + 1 + 7 + render_string(g.text).len() as int + 1 + 9 + render_tokens(g.tokens).len() as int;
    let o19 = o18 + 1;
    let o20 = o19 + 13;
    let o21 = o20 + g.confidence.len() as int;
    assert forall|m: int| 0 <= m < g.confidence.len() implies s.subrange(o20, o21)[m]
        == g.confidence[m] by {
        assert(s[o20 + m] == r[o20 + m - i]);
        assert(r[o20 + m - i] == g.confidence[m]);
    }
    assert(s.subrange(o20, o21) =~= g.confidence);
    assert(s[o21] == r[o21 - i]);
    assert(r[o21 - i] == 44);
    lemma_parse_number_at(s, o20, g.confidence);
}

#[verifier::rlimit(100)]
#[verifier::spinoff_prover]
proof fn lemma_parse_segment_part_d2a1(s: Seq<u8>, i: int, g: SegmentV)
    requires
        wf_segment(g),
        0 <= i,
        i + render_segment(g).len() <= s.len(),
        s.subrange(i, i + render_segment(g).len()) == render_segment(g),
    ensures
        ({
        let o21 = i + 1 + 5 + dec_digits(g.id as nat).len() as int + 1 + 7 + dec_digits(g.seek as nat).len() as int + 1 + 8 + g.start.len() as int + 1 + 6 + g.end.len() as int + 1 + 7 + render_string(g.text).len() as int + 1 + 9 + render_tokens(g.tokens).len() as int + 1 + 13 + g.confidence.len() as int;
        let o22 = o21 + 1;
        let o23 = o22 + 8;
        let o24 = o23 + render_words(g.words).len() as int;
        let o25 = o24 + 1;
            &&& spec_match_byte(s, o21, 44) == Some(o22)
        }),
{
    let r = render_segment(g);
    let rl = r.len() as int;
    assert forall|k: int| i <= k < i + rl implies #[trigger] s[k] == r[k - i] by {
        assert(r[k - i] == s.subrange(i, i + rl)[k - i]);
    }
    assert(rl == 1 + 5 + dec_digits(g.id as nat).len() + 1 + 7 + dec_digits(g.seek as nat).len() + 1 + 8 + g.start.len() + 1 + 6 + g.end.len() + 1 + 7 + render_string(g.text).len() + 1 + 9 + render_tokens(g.tokens).len() + 1 + 13 + g.confidence.len() + 1 + 8 + render_words(g.words).len() + 1);
    let o21 = i + 1 + 5 + dec_digits(g.id as nat).len() as int + 1 + 7 + dec_digits(g.seek as nat).len() as int + 1 + 8 + g.start.len() as int + 1 + 6 + g.end.len() as int + 1 + 7 + render_string(g.text).len() as int + 1 + 9 + render_tokens(g.tokens).len() as int + 1 + 13 + g.confidence.len() as int;
    let o22 = o21 + 1;
    let o23 = o22 + 8;
    let o24 = o23 + render_words(g.words).len() as int;
    let o25 = o24 + 1;
    assert(s[o21] == r[o21 - i]);
    assert(r[o21 - i] == 44);
    assert(skip_ws(s, o21) == o21);
}

#[verifier::rlimit(100)]
#[verifier::spinoff_prover]
proof fn lemma_segment_words_key_range(s: Seq<u8>, i: int, g: SegmentV)
    requires
        wf_segment(g),
        0 <= i,
        i + render_segment(g).len() <= s.len(),
        s.subrange(i, i + render_segment(g).len()) == render_segment(g),
    ensures
        ({
            let o22 = i + 1 + 5 + dec_digits(g.id as nat).len() as int + 1 + 7 + dec_digits(g.seek as nat).len() as int + 1 + 8 + g.start.len() as int + 1 + 6 + g.end.len() as int + 1 + 7 + render_string(g.text).len() as int + 1 + 9 + render_tokens(g.tokens).len() as int + 1 + 13 + g.confidence.len() as int + 1;
            s.subrange(o22, o22 + 8) == qkey(lit_words()) && o22 + 11 <= s.len()
        }),
{
    let r = render_segment(g);
    let rl = r.len() as int;
    assert(rl == 1 + 5 + dec_digits(g.id as nat).len() + 1 + 7 + dec_digits(g.seek as nat).len() + 1 + 8 + g.start.len() + 1 + 6 + g.end.len() + 1 + 7 + render_string(g.text).len() + 1 + 9 + render_tokens(g.tokens).len() + 1 + 13 + g.confidence.len() + 1 + 8 + render_words(g.words).len() + 1);
    let o22 = i + 1 + 5 + dec_digits(g.id as nat).len() as int + 1 + 7 + dec_digits(g.seek as nat).len() as int + 1 + 8 + g.start.len() as int + 1 + 6 + g.end.len() as int + 1 + 7 + render_string(g.text).len() as int + 1 + 9 + render_tokens(g.tokens).len() as int + 1 + 13 + g.confidence.len() as int + 1;
    assert forall|m: int| 0 <= m < 8 implies s.subrange(o22, o22 + 8)[m] == qkey(
        lit_words(),
    )[m] by {
        assert(s.subrange(o22, o22 + 8)[m] == s.subrange(i, i + rl)[o22 - i + m]);
        assert(r[o22 - i + m] == qkey(lit_words())[m]);
    }
    assert(s.subrange(o22, o22 + 8) =~= qkey(lit_words()));
}

#[verifier::rlimit(100)]
#[verifier::spinoff_prover]
proof fn lemma_parse_segment_part_d2a2(s: Seq<u8>, i: int, g: SegmentV)
    requires
        wf_segment(g),
        0 <= i,
        i + render_segment(g).len() <= s.len(),
        s.subrange(i, i + render_segment(g).len()) == render_segment(g),
    ensures
        ({
            let o21 = i + 1 + 5 + dec_digits(g.id as nat).len() as int + 1 + 7 + dec_digits(g.seek as nat).len() as int + 1 + 8 + g.start.len() as int + 1 + 6 + g.end.len() as int + 1 + 7 + render_string(g.text).len() as int + 1 + 9 + render_tokens(g.tokens).len() as int + 1 + 13 + g.confidence.len() as int;
            let o22 = o21 + 1;
            let o23 = o22 + 8;
            &&& spec_parse_string(s, o22) == Some((lit_words(), o23 - 1))
            &&& spec_match_byte(s, o23 - 1, 58) == Some(o23)
        }),
{
    lemma_segment_words_key_range(s, i, g);
    let o22 = i + 1 + 5 + dec_digits(g.id as nat).len() as int + 1 + 7 + dec_digits(g.seek as nat).len() as int + 1 + 8 + g.start.len() as int + 1 + 6 + g.end.len() as int + 1 + 7 + render_string(g.text).len() as int + 1 + 9 + render_tokens(g.tokens).len() as int + 1 + 13 + g.confidence.len() as int + 1;
    lemma_parse_key_at(s, o22, lit_words());
}

#[verifier::rlimit(100)]
#[verifier::spinoff_prover]
proof fn lemma_parse_segment_part_d2b(s: Seq<u8>, i: int, g: SegmentV)
    requires
        wf_segment(g),
        0 <= i,
        i + render_segment(g).len() <= s.len(),
        s.subrange(i, i + render_segment(g).len()) == render_segment(g),
    ensures
        ({
        let o21 = i + 1 + 5 + dec_digits(g.id as nat).len() as int + 1 + 7 + dec_digits(g.seek as nat).len() as int + 1 + 8 + g.start.len() as int + 1 + 6 + g.end.len() as int + 1 + 7 + render_string(g.text).len() as int + 1 + 9 + render_tokens(g.tokens).len() as int + 1 + 13 + g.confidence.len() as int;
        let o22 = o21 + 1;
        let o23 = o22 + 8;
        let o24 = o23 + render_words(g.words).len() as int;
        let o25 = o24 + 1;
            &&& spec_parse_words(s, o23) == Some((g.words, o24))
            &&& spec_match_byte(s, o24, 125) == Some(o25)
        }),
{
    let r = render_segment(g);
    let rl = r.len() as int;
    assert forall|k: int| i <= k < i + rl implies #[trigger] s[k] == r[k - i] by {
        assert(r[k - i] == s.subrange(i, i + rl)[k - i]);
    }
    assert(rl == 1 + 5 + dec_digits(g.id as nat).len() + 1 + 7 + dec_digits(g.seek as nat).len() + 1 + 8 + g.start.len() + 1 + 6 + g.end.len() + 1 + 7 + render_string(g.text).len() + 1 + 9 + render_tokens(g.tokens).len() + 1 + 13 + g.confidence.len() + 1 + 8 + render_words(g.words).len() + 1);
    let o21 = i + 1 + 5 + dec_digits(g.id as nat).len() as int + 1 + 7 + dec_digits(g.seek as nat).len() as int + 1 + 8 + g.start.len() as int + 1 + 6 + g.end.len() as int + 1 + 7 + render_string(g.text).len() as int + 1 + 9 + render_tokens(g.tokens).len() as int + 1 + 13 + g.confidence.len() as int;
    let o22 = o21 + 1;
    let o23 = o22 + 8;
    let o24 = o23 + render_words(g.words).len() as int;
    let o25 = o24 + 1;
    assert forall|m: int| 0 <= m < render_words(g.words).len() implies s.subrange(
        o23,
        o24,
    )[m] == render_words(g.words)[m] by {
        assert(s[o23 + m] == r[o23 + m - i]);
        assert(r[o23 + m - i] == render_words(g.words)[m]);
    }
    assert(s.subrange(o23, o24) =~= render_words(g.words));
    lemma_parse_words_at(s, o23, g.words);
    assert(s[o24] == r[o24 - i]);
    assert(r[o24 - i] == 125);
    assert(skip_ws(s, o24) == o24);
}

/// The printed `id` and `seek` members parse back in turn.
#[verifier::rlimit(100)]
#[verifier::spinoff_prover]
proof fn lemma_segment_walk_a(s: Seq<u8>, i: int, g: SegmentV)
    requires
        wf_segment(g),
        0 <= i,
        i + render_segment(g).len() <= s.len(),
        s.subrange(i, i + render_segment(g).len()) == render_segment(g),
    ensures
        ({
            let o1 = i + 1;
            let o6 = i + 14 + dec_digits(g.id as nat).len() + dec_digits(g.seek as nat).len();
            spec_segment_members(s, o1, false, None, None, None, None, None, None, None, None)
                == spec_segment_members(
                s,
                o6,
                true,
                Some(g.id),
                Some(g.seek),
                None,
                None,
                None,
                None,
                None,
                None,
            )
        }),
{
    reveal(spec_segment_members);
    lemma_keys_distinct();
    let r = render_segment(g);
    let rl = r.len() as int;
    assert forall|k: int| i <= k < i + rl implies #[trigger] s[k] == r[k - i] by {
        assert(r[k - i] == s.subrange(i, i + rl)[k - i]);
    }
    assert(rl == 1 + 5 + dec_digits(g.id as nat).len() + 1 + 7 + dec_digits(g.seek as nat).len() + 1 + 8 + g.start.len() + 1 + 6 + g.end.len() + 1 + 7 + render_string(g.text).len() + 1 + 9 + render_tokens(g.tokens).len() + 1 + 13 + g.confidence.len() + 1 + 8 + render_words(g.words).len() + 1);
    let o1 = i + 1;
    let o2 = o1 + 5;
    let o3 = o2 + dec_digits(g.id as nat).len() as int;
    let o4 = o3 + 1;
    let o5 = o4 + 7;
    let o6 = o5 + dec_digits(g.seek as nat).len() as int;
    let o7 = o6 + 1;
    let o8 = o7 + 8;
    let o9 = o8 + g.start.len() as int;
    let o10 = o9 + 1;
    let o11 = o10 + 6;
    let o12 = o11 + g.end.len() as int;
    let o13 = o12 + 1;
    let o14 = o13 + 7;
    let o15 = o14 + render_string(g.text).len() as int;
    let o16 = o15 + 1;
    let o17 = o16 + 9;
    let o18 = o17 + render_tokens(g.tokens).len() as int;
    let o19 = o18 + 1;
    let o20 = o19 + 13;
    let o21 = o20 + g.confidence.len() as int;
    let o22 = o21 + 1;
    let o23 = o22 + 8;
    let o24 = o23 + render_words(g.words).len() as int;
    let o25 = o24 + 1;
    lemma_parse_segment_part_a1(s, i, g);
    lemma_parse_segment_part_a2(s, i, g);
    assert(s[o1] == r[o1 - i] && r[o1 - i] == 34);
    assert(s[o3] == r[o3 - i] && r[o3 - i] == 44);
    assert(s[o4] == r[o4 - i] && r[o4 - i] == 34);
    assert(spec_segment_members(s, o1, false, None, None, None, None, None, None, None, None) == spec_segment_members(
        s,
        o3,
        true,
        Some(g.id), None, None, None, None, None, None, None,
    ));
    assert(spec_segment_members(s, o3, true, Some(g.id), None, None, None, None, None, None, None) == spec_segment_members(
        s,
        o4,
        false,
        Some(g.id), None, None, None, None, None, None, None,
    ));
    assert(spec_segment_members(s, o4, false, Some(g.id), None, None, None, None, None, None, None) == spec_segment_members(
        s,
        o6,
        true,
        Some(g.id), Some(g.seek), None, None, None, None, None, None,
    ));
}

/// The printed `start` member of a segment parses back.
#[verifier::rlimit(100)]
#[verifier::spinoff_prover]
proof fn lemma_segment_walk_b1(s: Seq<u8>, i: int, g: SegmentV)
    requires
        wf_segment(g),
        0 <= i,
        i + render_segment(g).len() <= s.len(),
        s.subrange(i, i + render_segment(g).len()) == render_segment(g),
    ensures
        ({
            let o6 = i + 14 + dec_digits(g.id as nat).len() + dec_digits(g.seek as nat).len();
            let o9 = i + 23 + dec_digits(g.id as nat).len() + dec_digits(g.seek as nat).len()
                + g.start.len();
            spec_segment_members(
                s,
                o6,
                true,
                Some(g.id),
                Some(g.seek),
                None,
                None,
                None,
                None,
                None,
                None,
            ) == spec_segment_members(
                s,
                o9,
                true,
                Some(g.id),
                Some(g.seek),
                Some(g.start),
                None,
                None,
                None,
                None,
                None,
            )
        }),
{
    reveal(spec_segment_members);
    lemma_keys_distinct();
    let r = render_segment(g);
    let rl = r.len() as int;
    assert forall|k: int| i <= k < i + rl implies #[trigger] s[k] == r[k - i] by {
        assert(r[k - i] == s.subrange(i, i + rl)[k - i]);
    }
    assert(rl == 1 + 5 + dec_digits(g.id as nat).len() + 1 + 7 + dec_digits(g.seek as nat).len() + 1 + 8 + g.start.len() + 1 + 6 + g.end.len() + 1 + 7 + render_string(g.text).len() + 1 + 9 + render_tokens(g.tokens).len() + 1 + 13 + g.confidence.len() + 1 + 8 + render_words(g.words).len() + 1);
    let o1 = i + 1;
    let o2 = o1 + 5;
    let o3 = o2 + dec_digits(g.id as nat).len() as int;
    let o4 = o3 + 1;
    let o5 = o4 + 7;
    let o6 = o5 + dec_digits(g.seek as nat).len() as int;
    let o7 = o6 + 1;
    let o8 = o7 + 8;
    let o9 = o8 + g.start.len() as int;
    let o10 = o9 + 1;
    let o11 = o10 + 6;
    let o12 = o11 + g.end.len() as int;
    let o13 = o12 + 1;
    let o14 = o13 + 7;
    let o15 = o14 + render_string(g.text).len() as int;
    let o16 = o15 + 1;
    let o17 = o16 + 9;
    let o18 = o17 + render_tokens(g.tokens).len() as int;
    let o19 = o18 + 1;
    let o20 = o19 + 13;
    let o21 = o20 + g.confidence.len() as int;
    let o22 = o21 + 1;
    let o23 = o22 + 8;
    let o24 = o23 + render_words(g.words).len() as int;
    let o25 = o24 + 1;
    lemma_parse_segment_part_b1(s, i, g);
    assert(s[o6] == r[o6 - i] && r[o6 - i] == 44);
    assert(s[o7] == r[o7 - i] && r[o7 - i] == 34);
    assert(spec_segment_members(s, o6, true, Some(g.id), Some(g.seek), None, None, None, None, None, None) == spec_segment_members(
        s,
        o7,
        false,
        Some(g.id), Some(g.seek), None, None, None, None, None, None,
    ));
    assert(spec_segment_members(s, o7, false, Some(g.id), Some(g.seek), None, None, None, None, None, None) == spec_segment_members(
        s,
        o9,
        true,
        Some(g.id), Some(g.seek), Some(g.start), None, None, None, None, None,
    ));
}

/// The printed `end` member of a segment parses back.
#[verifier::rlimit(100)]
#[verifier::spinoff_prover]
proof fn lemma_segment_walk_b2(s: Seq<u8>, i: int, g: SegmentV)
    requires
        wf_segment(g),
        0 <= i,
        i + render_segment(g).len() <= s.len(),
        s.subrange(i, i + render_segment(g).len()) == render_segment(g),
    ensures
        ({
            let o9 = i + 23 + dec_digits(g.id as nat).len() + dec_digits(g.seek as nat).len()
                + g.start.len();
            let o12 = i + 30 + dec_digits(g.id as nat).len() + dec_digits(g.seek as nat).len()
                + g.start.len() + g.end.len();
            spec_segment_members(
                s,
                o9,
                true,
                Some(g.id),
                Some(g.seek),
                Some(g.start),
                None,
                None,
                None,
                None,
                None,
            ) == spec_segment_members(
                s,
                o12,
                true,
                Some(g.id),
                Some(g.seek),
                Some(g.start),
                Some(g.end),
                None,
                None,
                None,
                None,
            )
        }),
{
    reveal(spec_segment_members);
    lemma_keys_distinct();
    let r = render_segment(g);
    let rl = r.len() as int;
    assert forall|k: int| i <= k < i + rl implies #[trigger] s[k] == r[k - i] by {
        assert(r[k - i] == s.subrange(i, i + rl)[k - i]);
    }
    assert(rl == 1 + 5 + dec_digits(g.id as nat).len() + 1 + 7 + dec_digits(g.seek as nat).len() + 1 + 8 + g.start.len() + 1 + 6 + g.end.len() + 1 + 7 + render_string(g.text).len() + 1 + 9 + render_tokens(g.tokens).len() + 1 + 13 + g.confidence.len() + 1 + 8 + render_words(g.words).len() + 1);
    let o1 = i + 1;
    let o2 = o1 + 5;
    let o3 = o2 + dec_digits(g.id as nat).len() as int;
    let o4 = o3 + 1;
    let o5 = o4 + 7;
    let o6 = o5 + dec_digits(g.seek as nat).len() as int;
    let o7 = o6 + 1;
    let o8 = o7 + 8;
    let o9 = o8 + g.start.len() as int;
    let o10 = o9 + 1;
    let o11 = o10 + 6;
    let o12 = o11 + g.end.len() as int;
    let o13 = o12 + 1;
    let o14 = o13 + 7;
    let o15 = o14 + render_string(g.text).len() as int;
    let o16 = o15 + 1;
    let o17 = o16 + 9;
    let o18 = o17 + render_tokens(g.tokens).len() as int;
    let o19 = o18 + 1;
    let o20 = o19 + 13;
    let o21 = o20 + g.confidence.len() as int;
    let o22 = o21 + 1;
    let o23 = o22 + 8;
    let o24 = o23 + render_words(g.words).len() as int;
    let o25 = o24 + 1;
    lemma_parse_segment_part_b2(s, i, g);
    assert(s[o9] == r[o9 - i] && r[o9 - i] == 44);
    assert(s[o10] == r[o10 - i] && r[o10 - i] == 34);
    assert(spec_segment_members(s, o9, true, Some(g.id), Some(g.seek), Some(g.start), None, None, None, None, None) == spec_segment_members(
        s,
        o10,
        false,
        Some(g.id), Some(g.seek), Some(g.start), None, None, None, None, None,
    ));
    assert(spec_segment_members(s, o10, false, Some(g.id), Some(g.seek), Some(g.start), None, None, None, None, None) == spec_segment_members(
        s,
        o12,
        true,
        Some(g.id), Some(g.seek), Some(g.start), Some(g.end), None, None, None, None,
    ));
}


/// The printed `text` and `tokens` members parse back in turn.
#[verifier::rlimit(100)]
#[verifier::spinoff_prover]
proof fn lemma_segment_walk_c(s: Seq<u8>, i: int, g: SegmentV)
    requires
        wf_segment(g),
        0 <= i,
        i + render_segment(g).len() <= s.len(),
        s.subrange(i, i + render_segment(g).len()) == render_segment(g),
    ensures
        ({
            let o12 = i + 30 + dec_digits(g.id as nat).len() + dec_digits(g.seek as nat).len()
                + g.start.len() + g.end.len();
            let o18 = i + 48 + dec_digits(g.id as nat).len() + dec_digits(g.seek as nat).len()
                + g.start.len() + g.end.len() + render_string(g.text).len() + render_tokens(
                g.tokens,
            ).len();
            spec_segment_members(
                s,
                o12,
                true,
                Some(g.id),
                Some(g.seek),
                Some(g.start),
                Some(g.end),
                None,
                None,
                None,
                None,
            ) == spec_segment_members(
                s,
                o18,
                true,
                Some(g.id),
                Some(g.seek),
                Some(g.start),
                Some(g.end),
                Some(g.text),
                Some(g.tokens),
                None,
                None,
            )
        }),
{
    reveal(spec_segment_members);
    lemma_keys_distinct();
    let r = render_segment(g);
    let rl = r.len() as int;
    assert forall|k: int| i <= k < i + rl implies #[trigger] s[k] == r[k - i] by {
        assert(r[k - i] == s.subrange(i, i + rl)[k - i]);
    }
    assert(rl == 1 + 5 + dec_digits(g.id as nat).len() + 1 + 7 + dec_digits(g.seek as nat).len() + 1 + 8 + g.start.len() + 1 + 6 + g.end.len() + 1 + 7 + render_string(g.text).len() + 1 + 9 + render_tokens(g.tokens).len() + 1 + 13 + g.confidence.len() + 1 + 8 + render_words(g.words).len() + 1);
    let o1 = i + 1;
    let o2 = o1 + 5;
    let o3 = o2 + dec_digits(g.id as nat).len() as int;
    let o4 = o3 + 1;
    let o5 = o4 + 7;
    let o6 = o5 + dec_digits(g.seek as nat).len() as int;
    let o7 = o6 + 1;
    let o8 = o7 + 8;
    let o9 = o8 + g.start.len() as int;
    let o10 = o9 + 1;
    let o11 = o10 + 6;
    let o12 = o11 + g.end.len() as int;
    let o13 = o12 + 1;
    let o14 = o13 + 7;
    let o15 = o14 + render_string(g.text).len() as int;
    let o16 = o15 + 1;
    let o17 = o16 + 9;
    let o18 = o17 + render_tokens(g.tokens).len() as int;
    let o19 = o18 + 1;
    let o20 = o19 + 13;
    let o21 = o20 + g.confidence.len() as int;
    let o22 = o21 + 1;
    let o23 = o22 + 8;
    let o24 = o23 + render_words(g.words).len() as int;
    let o25 = o24 + 1;
    lemma_parse_segment_part_c1(s, i, g);
    lemma_parse_segment_part_c2a(s, i, g);
    lemma_parse_segment_part_c2b(s, i, g);
    assert(s[o12] == r[o12 - i] && r[o12 - i] == 44);
    assert(s[o13] == r[o13 - i] && r[o13 - i] == 34);
    assert(s[o15] == r[o15 - i] && r[o15 - i] == 44);
    assert(s[o16] == r[o16 - i] && r[o16 - i] == 34);
    assert(spec_segment_members(s, o12, true, Some(g.id), Some(g.seek), Some(g.start), Some(g.end), None, None, None, None) == spec_segment_members(
        s,
        o13,
        false,
        Some(g.id), Some(g.seek), Some(g.start), Some(g.end), None, None, None, None,
    ));
    assert(spec_segment_members(s, o13, false, Some(g.id), Some(g.seek), Some(g.start), Some(g.end), None, None, None, None) == spec_segment_members(
        s,
        o15,
        true,
        Some(g.id), Some(g.seek), Some(g.start), Some(g.end), Some(g.text), None, None, None,
    ));
    assert(spec_segment_members(s, o15, true, Some(g.id), Some(g.seek), Some(g.start), Some(g.end), Some(g.text), None, None, None) == spec_segment_members(
        s,
        o16,
        false,
        Some(g.id), Some(g.seek), Some(g.start), Some(g.end), Some(g.text), None, None, None,
    ));
    assert(spec_segment_members(s, o16, false, Some(g.id), Some(g.seek), Some(g.start), Some(g.end), Some(g.text), None, None, None) == spec_segment_members(
        s,
        o18,
        true,
        Some(g.id), Some(g.seek), Some(g.start), Some(g.end), Some(g.text), Some(g.tokens), None, None,
    ));
}

/// The printed `confidence` and `words` members, and the closing brace,
/// The printed `confidence` member of a segment parses back.
#[verifier::rlimit(100)]
#[verifier::spinoff_prover]
proof fn lemma_segment_walk_d1(s: Seq<u8>, i: int, g: SegmentV)
    requires
        wf_segment(g),
        0 <= i,
        i + render_segment(g).len() <= s.len(),
        s.subrange(i, i + render_segment(g).len()) == render_segment(g),
    ensures
        ({
            let o18 = i + 48 + dec_digits(g.id as nat).len() + dec_digits(g.seek as nat).len()
                + g.start.len() + g.end.len() + render_string(g.text).len() + render_tokens(
                g.tokens,
            ).len();
            let o21 = i + 62 + dec_digits(g.id as nat).len() + dec_digits(g.seek as nat).len()
                + g.start.len() + g.end.len() + render_string(g.text).len() + render_tokens(
                g.tokens,
            ).len() + g.confidence.len();
            spec_segment_members(
                s,
                o18,
                true,
                Some(g.id),
                Some(g.seek),
                Some(g.start),
                Some(g.end),
                Some(g.text),
                Some(g.tokens),
                None,
                None,
            ) == spec_segment_members(
                s,
                o21,
                true,
                Some(g.id),
                Some(g.seek),
                Some(g.start),
                Some(g.end),
                Some(g.text),
                Some(g.tokens),
                Some(g.confidence),
                None,
            )
        }),
{
    reveal(spec_segment_members);
    lemma_keys_distinct();
    let r = render_segment(g);
    let rl = r.len() as int;
    assert forall|k: int| i <= k < i + rl implies #[trigger] s[k] == r[k - i] by {
        assert(r[k - i] == s.subrange(i, i + rl)[k - i]);
    }
    assert(rl == 1 + 5 + dec_digits(g.id as nat).len() + 1 + 7 + dec_digits(g.seek as nat).len() + 1 + 8 + g.start.len() + 1 + 6 + g.end.len() + 1 + 7 + render_string(g.text).len() + 1 + 9 + render_tokens(g.tokens).len() + 1 + 13 + g.confidence.len() + 1 + 8 + render_words(g.words).len() + 1);
    let o1 = i + 1;
    let o2 = o1 + 5;
    let o3 = o2 + dec_digits(g.id as nat).len() as int;
    let o4 = o3 + 1;
    let o5 = o4 + 7;
    let o6 = o5 + dec_digits(g.seek as nat).len() as int;
    let o7 = o6 + 1;
    let o8 = o7 + 8;
    let o9 = o8 + g.start.len() as int;
    let o10 = o9 + 1;
    let o11 = o10 + 6;
    let o12 = o11 + g.end.len() as int;
    let o13 = o12 + 1;
    let o14 = o13 + 7;
    let o15 = o14 + render_string(g.text).len() as int;
    let o16 = o15 + 1;
    let o17 = o16 + 9;
    let o18 = o17 + render_tokens(g.tokens).len() as int;
    let o19 = o18 + 1;
    let o20 = o19 + 13;
    let o21 = o20 + g.confidence.len() as int;
    let o22 = o21 + 1;
    let o23 = o22 + 8;
    let o24 = o23 + render_words(g.words).len() as int;
    let o25 = o24 + 1;
    lemma_parse_segment_part_d1a1(s, i, g);
    lemma_parse_segment_part_d1a2(s, i, g);
    lemma_parse_segment_part_d1b(s, i, g);
    assert(s[o18] == r[o18 - i] && r[o18 - i] == 44);
    assert(s[o19] == r[o19 - i] && r[o19 - i] == 34);
    assert(spec_segment_members(s, o18, true, Some(g.id), Some(g.seek), Some(g.start), Some(g.end), Some(g.text), Some(g.tokens), None, None) == spec_segment_members(
        s,
        o19,
        false,
        Some(g.id), Some(g.seek), Some(g.start), Some(g.end), Some(g.text), Some(g.tokens), None, None,
    ));
    assert(spec_segment_members(s, o19, false, Some(g.id), Some(g.seek), Some(g.start), Some(g.end), Some(g.text), Some(g.tokens), None, None) == spec_segment_members(
        s,
        o21,
        true,
        Some(g.id), Some(g.seek), Some(g.start), Some(g.end), Some(g.text), Some(g.tokens), Some(g.confidence), None,
    ));
}

/// The printed `words` member and the closing brace complete the
/// segment.
#[verifier::rlimit(100)]
#[verifier::spinoff_prover]
proof fn lemma_segment_walk_d2(s: Seq<u8>, i: int, g: SegmentV)
    requires
        wf_segment(g),
        0 <= i,
        i + render_segment(g).len() <= s.len(),
        s.subrange(i, i + render_segment(g).len()) == render_segment(g),
    ensures
        ({
            let o21 = i + 62 + dec_digits(g.id as nat).len() + dec_digits(g.seek as nat).len()
                + g.start.len() + g.end.len() + render_string(g.text).len() + render_tokens(
                g.tokens,
            ).len() + g.confidence.len();
            spec_segment_members(
                s,
                o21,
                true,
                Some(g.id),
                Some(g.seek),
                Some(g.start),
                Some(g.end),
                Some(g.text),
                Some(g.tokens),
                Some(g.confidence),
                None,
            ) == Some((g, i + render_segment(g).len()))
        }),
{
    reveal(spec_segment_members);
    lemma_keys_distinct();
    let r = render_segment(g);
    let rl = r.len() as int;
    assert forall|k: int| i <= k < i + rl implies #[trigger] s[k] == r[k - i] by {
        assert(r[k - i] == s.subrange(i, i + rl)[k - i]);
    }
    assert(rl == 1 + 5 + dec_digits(g.id as nat).len() + 1 + 7 + dec_digits(g.seek as nat).len() + 1 + 8 + g.start.len() + 1 + 6 + g.end.len() + 1 + 7 + render_string(g.text).len() + 1 + 9 + render_tokens(g.tokens).len() + 1 + 13 + g.confidence.len() + 1 + 8 + render_words(g.words).len() + 1);
    let o1 = i + 1;
    let o2 = o1 + 5;
    let o3 = o2 + dec_digits(g.id as nat).len() as int;
    let o4 = o3 + 1;
    let o5 = o4 + 7;
    let o6 = o5 + dec_digits(g.seek as nat).len() as int;
    let o7 = o6 + 1;
    let o8 = o7 + 8;
    let o9 = o8 + g.start.len() as int;
    let o10 = o9 + 1;
    let o11 = o10 + 6;
    let o12 = o11 + g.end.len() as int;
    let o13 = o12 + 1;
    let o14 = o13 + 7;
    let o15 = o14 + render_string(g.text).len() as int;
    let o16 = o15 + 1;
    let o17 = o16 + 9;
    let o18 = o17 + render_tokens(g.tokens).len() as int;
    let o19 = o18 + 1;
    let o20 = o19 + 13;
    let o21 = o20 + g.confidence.len() as int;
    let o22 = o21 + 1;
    let o23 = o22 + 8;
    let o24 = o23 + render_words(g.words).len() as int;
    let o25 = o24 + 1;
    lemma_parse_segment_part_d2a1(s, i, g);
    lemma_parse_segment_part_d2a2(s, i, g);
    lemma_parse_segment_part_d2b(s, i, g);
    assert(s[o21] == r[o21 - i] && r[o21 - i] == 44);
    assert(s[o22] == r[o22 - i] && r[o22 - i] == 34);
    assert(s[o24] == r[o24 - i] && r[o24 - i] == 125);
    assert(spec_segment_members(s, o21, true, Some(g.id), Some(g.seek), Some(g.start), Some(g.end), Some(g.text), Some(g.tokens), Some(g.confidence), None) == spec_segment_members(
        s,
        o22,
        false,
        Some(g.id), Some(g.seek), Some(g.start), Some(g.end), Some(g.text), Some(g.tokens), Some(g.confidence), None,
    ));
    assert(spec_segment_members(s, o22, false, Some(g.id), Some(g.seek), Some(g.start), Some(g.end), Some(g.text), Some(g.tokens), Some(g.confidence), None) == spec_segment_members(
        s,
        o24,
        true,
        Some(g.id), Some(g.seek), Some(g.start), Some(g.end), Some(g.text), Some(g.tokens), Some(g.confidence), Some(g.words),
    ));
    assert(spec_segment_members(s, o24, true, Some(g.id), Some(g.seek), Some(g.start), Some(g.end), Some(g.text), Some(g.tokens), Some(g.confidence), Some(g.words)) == Some(
        (
            SegmentV {
                id: g.id,
                seek: g.seek,
                start: g.start,
                end: g.end,
                text: g.text,
                tokens: g.tokens,
                confidence: g.confidence,
                words: g.words,
            },
            o25,
        ),
    ));
    assert(SegmentV {
        id: g.id,
        seek: g.seek,
        start: g.start,
        end: g.end,
        text: g.text,
        tokens: g.tokens,
        confidence: g.confidence,
        words: g.words,
    } == g);
}


/// A printed segment embedded at `i` parses back to the same segment.
#[verifier::rlimit(100)]
#[verifier::spinoff_prover]
proof fn lemma_parse_segment_at(s: Seq<u8>, i: int, g: SegmentV)
    requires
        wf_segment(g),
        0 <= i,
        i + render_segment(g).len() <= s.len(),
        s.subrange(i, i + render_segment(g).len()) == render_segment(g),
    ensures
        spec_parse_segment(s, i) == Some((g, i + render_segment(g).len())),
{
    reveal(spec_parse_segment);
    lemma_parse_segment_part_a1(s, i, g);
    lemma_segment_walk_a(s, i, g);
    lemma_segment_walk_b1(s, i, g);
    lemma_segment_walk_b2(s, i, g);
    lemma_segment_walk_c(s, i, g);
    lemma_segment_walk_d1(s, i, g);
    lemma_segment_walk_d2(s, i, g);
}

/// What remains of a printed `segments` array after some leading elements.
#[verifier::opaque]
pub open spec fn rest_render_segments(gs: Seq<SegmentV>) -> Seq<u8>
    decreases gs.len(),
{
    if gs.len() == 0 {
        seq![93u8]
    } else {
        seq![44u8] + render_segment(gs[0]) + rest_render_segments(gs.drop_first())
    }
}

#[verifier::rlimit(100)]
#[verifier::spinoff_prover]
proof fn lemma_items_close_segments(gs: Seq<SegmentV>)
    requires
        gs.len() > 0,
    ensures
        render_segments_items(gs) + seq![93u8] == render_segment(gs[0]) + rest_render_segments(
            gs.drop_first(),
        ),
    decreases gs.len(),
{
    reveal(rest_render_segments);
    if gs.len() == 1 {
        assert(rest_render_segments(gs.drop_first()) == seq![93u8]);
        assert(render_segments_items(gs) == render_segment(gs[0]));
    } else {
        let d = gs.drop_first();
        lemma_items_close_segments(d);
        assert(render_segments_items(gs) == render_segment(gs[0]) + seq![44u8]
            + render_segments_items(d));
        assert(rest_render_segments(d) == seq![44u8] + render_segment(d[0])
            + rest_render_segments(d.drop_first()));
        assert(((render_segment(gs[0]) + seq![44u8]) + render_segments_items(d)) + seq![93u8]
            =~= render_segment(gs[0]) + (seq![44u8] + (render_segments_items(d) + seq![93u8])));
        assert(seq![44u8] + (render_segment(d[0]) + rest_render_segments(d.drop_first()))
            =~= (seq![44u8] + render_segment(d[0])) + rest_render_segments(d.drop_first()));
    }
}

#[verifier::rlimit(100)]
#[verifier::spinoff_prover]
proof fn lemma_parse_segments_rest_at(s: Seq<u8>, i: int, gs: Seq<SegmentV>)
    requires
        forall|j: int| 0 <= j < gs.len() ==> wf_segment(#[trigger] gs[j]),
        0 <= i,
        i + rest_render_segments(gs).len() <= s.len(),
        s.subrange(i, i + rest_render_segments(gs).len()) == rest_render_segments(gs),
    ensures
        spec_parse_segments_rest(s, i) == Some((gs, i + rest_render_segments(gs).len())),
    decreases gs.len(),
{
    reveal(rest_render_segments);
    let r = rest_render_segments(gs);
    let rl = r.len() as int;
    assert forall|k: int| i <= k < i + rl implies #[trigger] s[k] == r[k - i] by {
        assert(r[k - i] == s.subrange(i, i + rl)[k - i]);
    }
    if gs.len() == 0 {
        assert(s[i] == 93);
        assert(skip_ws(s, i) == i);
        assert(gs =~= Seq::<SegmentV>::empty());
    } else {
        let el = render_segment(gs[0]);
        assert(s[i] == r[0]);
        assert(r[0] == 44);
        assert(skip_ws(s, i) == i);
        assert forall|m: int| 0 <= m < el.len() implies s.subrange(i + 1, i + 1 + el.len())[m]
            == el[m] by {
            assert(s[i + 1 + m] == r[m + 1]);
            assert(r[m + 1] == el[m]);
        }
        assert(s.subrange(i + 1, i + 1 + el.len()) =~= el);
        let k = i + 1 + el.len() as int;
        let tail = rest_render_segments(gs.drop_first());
        lemma_parse_segment_at(s, i + 1, gs[0]);
        assert forall|m: int| 0 <= m < tail.len() implies s.subrange(k, k + tail.len())[m]
            == tail[m] by {
            assert(s[k + m] == r[k - i + m]);
            assert(r[k - i + m] == tail[m]);
        }
        assert(s.subrange(k, k + tail.len()) =~= tail);
        lemma_parse_segments_rest_at(s, k, gs.drop_first());
        assert(seq![gs[0]] + gs.drop_first() =~= gs);
    }
}

#[verifier::rlimit(100)]
#[verifier::spinoff_prover]
proof fn lemma_parse_segments_at(s: Seq<u8>, i: int, gs: Seq<SegmentV>)
    requires
        forall|j: int| 0 <= j < gs.len() ==> wf_segment(#[trigger] gs[j]),
        0 <= i,
        i + render_segments(gs).len() <= s.len(),
        s.subrange(i, i + render_segments(gs).len()) == render_segments(gs),
    ensures
        spec_parse_segments(s, i) == Some((gs, i + render_segments(gs).len())),
{
    reveal(rest_render_segments);
    let r = render_segments(gs);
    let rl = r.len() as int;
    assert forall|k: int| i <= k < i + rl implies #[trigger] s[k] == r[k - i] by {
        assert(r[k - i] == s.subrange(i, i + rl)[k - i]);
    }
    assert(s[i] == r[0]);
    assert(r[0] == 91);
    assert(skip_ws(s, i) == i);
    assert(spec_match_byte(s, i, 91) == Some(i + 1));
    if gs.len() == 0 {
        assert(render_segments_items(gs) == Seq::<u8>::empty());
        assert(r =~= seq![91u8, 93u8]);
        assert(s[i + 1] == 93);
        assert(skip_ws(s, i + 1) == i + 1);
        assert(gs =~= Seq::<SegmentV>::empty());
    } else {
        lemma_items_close_segments(gs);
        let el = render_segment(gs[0]);
        let tail = rest_render_segments(gs.drop_first());
        assert(r =~= seq![91u8] + (el + tail)) by {
            assert(r == (seq![91u8] + render_segments_items(gs)) + seq![93u8]);
            assert((seq![91u8] + render_segments_items(gs)) + seq![93u8] =~= seq![91u8]
                + (render_segments_items(gs) + seq![93u8]));
        }
        assert(s[i + 1] == r[1]);
        assert(r[1] == el[0]);
        assert(el[0] == 123);
        assert(skip_ws(s, i + 1) == i + 1);
        assert forall|m: int| 0 <= m < el.len() implies s.subrange(i + 1, i + 1 + el.len())[m]
            == el[m] by {
            assert(s[i + 1 + m] == r[m + 1]);
            assert(r[m + 1] == el[m]);
        }
        assert(s.subrange(i + 1, i + 1 + el.len()) =~= el);
        let k = i + 1 + el.len() as int;
        lemma_parse_segment_at(s, i + 1, gs[0]);
        assert forall|m: int| 0 <= m < tail.len() implies s.subrange(k, k + tail.len())[m]
            == tail[m] by {
            assert(s[k + m] == r[k - i + m]);
            assert(r[k - i + m] == tail[m]);
        }
        assert(s.subrange(k, k + tail.len()) =~= tail);
        lemma_parse_segments_rest_at(s, k, gs.drop_first());
        assert(seq![gs[0]] + gs.drop_first() =~= gs);
    }
}

/// Round trip of the tool-output format: printing a well-formed transcript
/// and parsing the result gives back the very same transcript — segment
/// order, word order, text, and every raw numeric token unchanged.
#[verifier::rlimit(100)]
#[verifier::spinoff_prover]
pub proof fn lemma_print_parse_round_trip(t: TranscriptV)
    requires
        wf_transcript(t),
        t.file_id is None,
    ensures
        spec_parse_transcript(spec_render_transcript(t)) == Some(t),
{
    reveal(spec_transcript_members);
    lemma_keys_distinct();
    let s = spec_render_transcript(t);
    let rl = s.len() as int;
    assert(rl == 1 + 7 + render_string(t.text).len() + 1 + 11 + render_segments(
        t.segments,
    ).len() + 1);
    let o1 = 1int;
    let o2 = o1 + 7;
    let o3 = o2 + render_string(t.text).len() as int;
    let o4 = o3 + 1;
    let o5 = o4 + 11;
    let o6 = o5 + render_segments(t.segments).len() as int;
    let o7 = o6 + 1;
    assert(s.subrange(0, rl) =~= s);
    assert(s[0] == 123);
    assert(skip_ws(s, 0) == 0);
    assert(spec_match_byte(s, 0, 123) == Some(o1));
    assert forall|m: int| 0 <= m < 7 implies s.subrange(o1, o1 + 7)[m] == qkey(lit_text())[m]
        by {
        assert(s.subrange(o1, o1 + 7)[m] == s[o1 + m]);
        assert(s[o1 + m] == qkey(lit_text())[m]);
    }
    assert(s.subrange(o1, o1 + 7) =~= qkey(lit_text()));
    lemma_parse_key_at(s, o1, lit_text());
    assert forall|m: int| 0 <= m < render_string(t.text).len() implies s.subrange(o2, o3)[m]
        == render_string(t.text)[m] by {
        assert(s.subrange(o2, o3)[m] == s[o2 + m]);
        assert(s[o2 + m] == render_string(t.text)[m]);
    }
    assert(s.subrange(o2, o3) =~= render_string(t.text));
    lemma_parse_string_at(s, o2, t.text);
    assert(s[o3] == 44);
    assert(skip_ws(s, o3) == o3);
    assert(spec_match_byte(s, o3, 44) == Some(o4));
    assert forall|m: int| 0 <= m < 11 implies s.subrange(o4, o4 + 11)[m] == qkey(
        lit_segments(),
    )[m] by {
        assert(s.subrange(o4, o4 + 11)[m] == s[o4 + m]);
        assert(s[o4 + m] == qkey(lit_segments())[m]);
    }
    assert(s.subrange(o4, o4 + 11) =~= qkey(lit_segments()));
    lemma_parse_key_at(s, o4, lit_segments());
    assert forall|m: int| 0 <= m < render_segments(t.segments).len() implies s.subrange(
        o5,
        o6,
    )[m] == render_segments(t.segments)[m] by {
        assert(s.subrange(o5, o6)[m] == s[o5 + m]);
        assert(s[o5 + m] == render_segments(t.segments)[m]);
    }
    assert(s.subrange(o5, o6) =~= render_segments(t.segments));
    lemma_parse_segments_at(s, o5, t.segments);
    assert(s[o6] == 125);
    assert(s[o1] == 34);
    assert(s[o4] == 34);
    assert(spec_transcript_members(s, o1, false, None, None) == spec_transcript_members(
        s,
        o3,
        true,
        Some(t.text),
        None,
    ));
    assert(spec_transcript_members(s, o3, true, Some(t.text), None)
        == spec_transcript_members(s, o4, false, Some(t.text), None));
    assert(spec_transcript_members(s, o4, false, Some(t.text), None)
        == spec_transcript_members(s, o6, true, Some(t.text), Some(t.segments)));
    assert(spec_transcript_members(s, o6, true, Some(t.text), Some(t.segments)) == Some(
        (TranscriptV { file_id: None, text: t.text, segments: t.segments }, o7),
    ));
    assert(o7 == rl);
    assert(skip_ws(s, o7) == rl);
    assert(spec_parse_transcript(s) == Some(
        TranscriptV { file_id: None, text: t.text, segments: t.segments },
    ));
    assert(TranscriptV { file_id: None, text: t.text, segments: t.segments } == t);
}

proof fn lemma_transcript_members_unbound(
    s: Seq<u8>,
    i: int,
    need_sep: bool,
    text: Option<Seq<u8>>,
    segments: Option<Seq<SegmentV>>,
)
    ensures
        spec_transcript_members(s, i, need_sep, text, segments) matches Some(p) ==> p.0.file_id
            is None,
    decreases s.len() - i,
{
    reveal(spec_transcript_members);
    if 0 <= i < s.len() {
        if is_ws(s[i]) {
            lemma_transcript_members_unbound(s, i + 1, need_sep, text, segments);
        } else if s[i] == 125 {
        } else if need_sep {
            if s[i] == 44 {
                lemma_transcript_members_unbound(s, i + 1, false, text, segments);
            }
        } else {
            match spec_parse_string(s, i) {
                None => {},
                Some((key, i2)) => match spec_match_byte(s, i2, 58) {
                    None => {},
                    Some(i3) => {
                        if key == lit_text() {
                            if text is None {
                                match spec_parse_string(s, i3) {
                                    None => {},
                                    Some((v, i4)) => {
                                        if i < i4 <= s.len() {
                                            lemma_transcript_members_unbound(
                                                s,
                                                i4,
                                                true,
                                                Some(v),
                                                segments,
                                            );
                                        }
                                    },
                                }
                            }
                        } else if key == lit_segments() {
                            if segments is None {
                                match spec_parse_segments(s, i3) {
                                    None => {},
                                    Some((v, i4)) => {
                                        if i < i4 <= s.len() {
                                            lemma_transcript_members_unbound(
                                                s,
                                                i4,
                                                true,
                                                text,
                                                Some(v),
                                            );
                                        }
                                    },
                                }
                            }
                        } else {
                            match spec_skip_member_value(s, i3) {
                                None => {},
                                Some(e) => {
                                    if i < e <= s.len() {
                                        lemma_transcript_members_unbound(
                                            s,
                                            e,
                                            true,
                                            text,
                                            segments,
                                        );
                                    }
                                },
                            }
                        }
                    },
                },
            }
        }
    }
}

/// Whatever the parser accepts carries no file identifier yet: the
/// pipeline binds one before persisting, so the print-then-parse round
/// trip applies to every parsed transcript with its identifier still
/// unset.
pub proof fn lemma_parse_transcript_unbound(s: Seq<u8>)
    ensures
        spec_parse_transcript(s) matches Some(t) ==> t.file_id is None,
{
    match spec_match_byte(s, 0, 123) {
        None => {},
        Some(i1) => {
            lemma_transcript_members_unbound(s, i1, false, None, None);
        },
    }
}

} // verus!

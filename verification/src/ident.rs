use vstd::prelude::*;

verus! {

/// One hexadecimal digit, either case.
pub open spec fn is_hex_digit(c: char) -> bool {
    ('0' <= c && c <= '9') || ('a' <= c && c <= 'f') || ('A' <= c && c <= 'F')
}

/// A well-formed blob-store handle: exactly 24 hexadecimal digits, the
/// textual form of a 12-byte object identifier. A string that fails this
/// test is rejected with `InvalidIdentifier` before any backend is asked.
pub open spec fn is_well_formed_id(s: Seq<char>) -> bool {
    s.len() == 24 && (forall|i: int| 0 <= i < s.len() ==> is_hex_digit(#[trigger] s[i]))
}

/// Decides `is_well_formed_id` for a candidate handle.
pub fn validate_id(s: &str) -> (r: bool)
    ensures
        r == is_well_formed_id(s@),
{
    let n = s.unicode_len();
    if n != 24 {
        return false;
    }
    let mut i: usize = 0;
    while i < 24
        invariant
            0 <= i <= 24,
            s@.len() == 24,
            forall|j: int| 0 <= j < i ==> is_hex_digit(#[trigger] s@[j]),
        decreases 24 - i,
    {
        let c = s.get_char(i);
        let ok = ('0' <= c && c <= '9') || ('a' <= c && c <= 'f') || ('A' <= c && c <= 'F');
        if !ok {
            return false;
        }
        i = i + 1;
    }
    true
}

} // verus!

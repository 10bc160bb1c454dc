//! Transliteration of Unicode text into ASCII, through the `unidecode` crate.

use vstd::prelude::*;

verus! {

/// What `unidecode::unidecode` gives for the text `s`.
pub uninterp spec fn transliterated(s: Seq<char>) -> Seq<char>;

/// Whether every character of `s` is ASCII.
pub open spec fn all_ascii(s: Seq<char>) -> bool {
    forall|i: int| 0 <= i < s.len() ==> (#[trigger] s[i] as int) < 128
}

/// `unidecode::unidecode`. Claims what its documentation guarantees: the
/// result is ASCII, and every ASCII character is mapped to itself (the
/// function maps each character on its own), so ASCII text is kept as it is.
#[verifier::external_body]
pub(crate) fn transliterate(s: &str) -> (out: String)
    ensures
        out@ == transliterated(s@),
        all_ascii(out@),
        all_ascii(s@) ==> out@ == s@,
{
    unidecode::unidecode(s)
}

} // verus!

use vstd::prelude::*;

use crate::text::chars_of;

verus! {

/// What `str::to_lowercase` gives for a text.
pub uninterp spec fn lowercase_of(s: Seq<char>) -> Seq<char>;

/// What `str::trim` leaves of a text.
pub uninterp spec fn trimmed_of(s: Seq<char>) -> Seq<char>;

/// Relies on `str::to_lowercase`: the lowercase form depends on the characters alone.
#[verifier::external_body]
fn lowercase(s: &str) -> (r: String)
    ensures
        r@ == lowercase_of(s@),
{
    s.to_lowercase()
}

/// Relies on `str::trim`: the text without leading and trailing whitespace.
#[verifier::external_body]
fn trimmed(s: &str) -> (r: String)
    ensures
        r@ == trimmed_of(s@),
{
    s.trim().to_owned()
}

/// Every character is one of `a` to `z`.
pub open spec fn ascii_lowercase_word(w: Seq<char>) -> bool {
    forall|i: int| 0 <= i < w.len() ==> 'a' <= #[trigger] w[i] && w[i] <= 'z'
}

/// Whether every character of `w` is one of `a` to `z`.
pub fn is_plain_lowercase(w: &str) -> (r: bool)
    ensures
        r == ascii_lowercase_word(w@),
{
    let cs = chars_of(w);
    let mut i: usize = 0;
    while i < cs.len()
        invariant
            cs@ == w@,
            i <= cs@.len(),
            forall|k: int| 0 <= k < i ==> 'a' <= #[trigger] cs@[k] && cs@[k] <= 'z',
        decreases cs@.len() - i,
    {
        let c = cs[i];
        if !('a' <= c && c <= 'z') {
            return false;
        }
        i = i + 1;
    }
    true
}

/// A dictionary entry as it goes into the corpus: entries of at most two
/// bytes are dropped; the rest is lowercased and trimmed, and kept only if
/// it is then made of the letters `a` to `z` alone.
pub fn clean_word(w: &str) -> (r: Option<String>)
    ensures
        w.len() <= 2 ==> r is None,
        w.len() > 2 ==> (r is Some <==> ascii_lowercase_word(trimmed_of(lowercase_of(w@)))),
        r matches Some(s) ==> s@ == trimmed_of(lowercase_of(w@)),
{
    if w.len() <= 2 {
        return None;
    }
    let lower = lowercase(w);
    let t = trimmed(lower.as_str());
    if is_plain_lowercase(t.as_str()) {
        Some(t)
    } else {
        None
    }
}

} // verus!

//! HTML/XML entity decoding. The decoding itself is delegated to the
//! `htmlescape` crate; this module adds the zero-work fast path for text
//! without `&` and the best-effort, never-failing contract.

use vstd::prelude::*;
use vstd::string::StrSliceExecFns;

verus! {

/// What `htmlescape::decode_html` makes of `s`: the decoded text when every
/// character reference in `s` is well formed, and otherwise the diagnostic
/// placeholder that stands in for the failed decode. The result depends on
/// the characters of `s` alone.
pub uninterp spec fn decoded_entities(s: Seq<char>) -> Seq<char>;

/// Relies on `htmlescape::decode_html`: it decodes named and numeric
/// character references, reading from an in-memory cursor, so its result
/// (decoded text, or on a malformed reference an error value whose debug
/// text is built from the error position and kind alone) is a function of
/// the input characters and nothing else.
#[verifier::external_body]
fn decode_html_text(s: &str) -> (r: String)
    ensures
        r@ == decoded_entities(s@),
{
    match htmlescape::decode_html(s) {
        Ok(text) => text,
        Err(e) => format!("{:?}", e),
    }
}

/// The result of entity decoding: the input itself when it holds no `&`,
/// and otherwise whatever the decoder makes of it.
pub open spec fn decode_entities_spec(s: Seq<char>) -> Seq<char> {
    if s.contains('&') {
        decoded_entities(s)
    } else {
        s
    }
}

/// Whether `c` occurs in `s`.
pub fn contains_char(s: &str, c: char) -> (r: bool)
    ensures
        r == s@.contains(c),
{
    let n = s.unicode_len();
    let mut i: usize = 0;
    while i < n
        invariant
            n == s@.len(),
            i <= n,
            forall|j: int| 0 <= j < i ==> s@[j] != c,
        decreases n - i,
    {
        if s.get_char(i) == c {
            proof {
                assert(s@[i as int] == c);
            }
            return true;
        }
        i = i + 1;
    }
    false
}

/// Decodes HTML/XML character references in `html`. Text without `&` is
/// returned unchanged; otherwise the decoder runs, and a malformed
/// reference degrades to a diagnostic placeholder rather than an error:
/// the operation always succeeds.
pub fn decode_entities(html: &str) -> (r: String)
    ensures
        r@ == decode_entities_spec(html@),
{
    if contains_char(html, '&') {
        decode_html_text(html)
    } else {
        html.to_owned()
    }
}

/// Decoding is the identity on text without `&`.
pub proof fn lemma_decode_entities_no_amp(s: Seq<char>)
    requires
        !s.contains('&'),
    ensures
        decode_entities_spec(s) == s,
{
}

} // verus!

//! The HTML-tag grammar and the stripping operations built on it.
//!
//! A tag match starts at a `<` and is, in order of preference: a comment
//! `<!--` .. `-->`; a `<style`..`>`..`</style>` block (contents included,
//! tag names compared case-insensitively); the same for `<script>`; or a
//! generic tag `<`..`>` ending at the first `>`. Each non-greedy span ends
//! at the earliest closing delimiter.

use vstd::prelude::*;
use vstd::string::{StrSliceExecFns, StringExecFns};

use crate::entities::{decode_entities, decode_entities_spec};
use crate::scan::{char_index, char_index_exec, ci_at, eq_at, find_at, find_at_exec, find_ci_at,
    find_ci_at_exec, lemma_char_index, lemma_find_at, lemma_find_ci_at, matches_at,
    matches_ci_at};

verus! {

/// End position of a comment `<!--` .. `-->` starting at `i`, if one does.
pub open spec fn comment_end(s: Seq<char>, i: int) -> Option<int> {
    if matches_at(s, i, "<!--"@) {
        match find_at(s, i + 4, "-->"@) {
            Some(r) => Some(r + 3),
            None => None,
        }
    } else {
        None
    }
}

/// End position of a block `open`..`>`..`close` starting at `i`: the open
/// tag ends at the first `>`, and the block at the earliest close tag after
/// it. Tag names are compared case-insensitively.
pub open spec fn block_end(s: Seq<char>, i: int, open: Seq<char>, close: Seq<char>) -> Option<
    int,
> {
    if matches_ci_at(s, i, open) {
        let q = char_index(s, i + open.len(), '>');
        if q < s.len() {
            match find_ci_at(s, q + 1, close) {
                Some(r) => Some(r + close.len()),
                None => None,
            }
        } else {
            None
        }
    } else {
        None
    }
}

/// End position of a generic tag `<`..`>` starting at `i`: just past the
/// first `>`, if there is one.
pub open spec fn generic_end(s: Seq<char>, i: int) -> Option<int> {
    if 0 <= i < s.len() && s[i] == '<' {
        let q = char_index(s, i + 1, '>');
        if q < s.len() {
            Some(q + 1)
        } else {
            None
        }
    } else {
        None
    }
}

pub open spec fn style_block_end(s: Seq<char>, i: int) -> Option<int> {
    block_end(s, i, "<style"@, "</style>"@)
}

pub open spec fn script_block_end(s: Seq<char>, i: int) -> Option<int> {
    block_end(s, i, "<script"@, "</script>"@)
}

/// End position of the HTML-tag match starting at `i`, trying the
/// alternatives in order of preference.
pub open spec fn html_match_end(s: Seq<char>, i: int) -> Option<int> {
    if comment_end(s, i) is Some {
        comment_end(s, i)
    } else if style_block_end(s, i) is Some {
        style_block_end(s, i)
    } else if script_block_end(s, i) is Some {
        script_block_end(s, i)
    } else {
        generic_end(s, i)
    }
}

pub proof fn lemma_block_end_bounds(s: Seq<char>, i: int, open: Seq<char>, close: Seq<char>)
    ensures
        match block_end(s, i, open, close) {
            Some(j) => i < j <= s.len() && 0 <= i,
            None => true,
        },
{
    if matches_ci_at(s, i, open) {
        lemma_char_index(s, i + open.len(), '>');
        let q = char_index(s, i + open.len(), '>');
        if q < s.len() {
            lemma_find_ci_at(s, q + 1, close);
        }
    }
}

pub proof fn lemma_html_match_end_bounds(s: Seq<char>, i: int)
    ensures
        match html_match_end(s, i) {
            Some(j) => i < j <= s.len() && 0 <= i < s.len(),
            None => true,
        },
{
    reveal_strlit("<!--");
    reveal_strlit("-->");
    reveal_strlit("<style");
    reveal_strlit("</style>");
    reveal_strlit("<script");
    reveal_strlit("</script>");
    if matches_at(s, i, "<!--"@) {
        lemma_find_at(s, i + 4, "-->"@);
    }
    lemma_block_end_bounds(s, i, "<style"@, "</style>"@);
    lemma_block_end_bounds(s, i, "<script"@, "</script>"@);
    if 0 <= i < s.len() && s[i] == '<' {
        lemma_char_index(s, i + 1, '>');
    }
}

fn comment_end_exec(s: &str, i: usize, n: usize) -> (r: Option<usize>)
    requires
        n == s@.len(),
        i < n,
    ensures
        match r {
            Some(j) => comment_end(s@, i as int) == Some(j as int) && i < j <= n,
            None => comment_end(s@, i as int) is None,
        },
{
    proof {
        reveal_strlit("<!--");
        reveal_strlit("-->");
    }
    if n - i >= 4 && eq_at(s, i, "<!--") {
        match find_at_exec(s, i + 4, "-->") {
            Some(r) => {
                proof {
                    lemma_find_at(s@, i + 4, "-->"@);
                }
                Some(r + 3)
            },
            None => None,
        }
    } else {
        None
    }
}

fn block_end_exec(s: &str, i: usize, n: usize, open: &str, close: &str) -> (r: Option<usize>)
    requires
        n == s@.len(),
        i < n,
    ensures
        match r {
            Some(j) => block_end(s@, i as int, open@, close@) == Some(j as int) && i < j <= n,
            None => block_end(s@, i as int, open@, close@) is None,
        },
{
    let ol = open.unicode_len();
    let cl = close.unicode_len();
    if n - i >= ol && ci_at(s, i, open) {
        let q = char_index_exec(s, i + ol, '>');
        proof {
            lemma_char_index(s@, i + ol, '>');
        }
        if q < n {
            match find_ci_at_exec(s, q + 1, close) {
                Some(r) => {
                    proof {
                        lemma_find_ci_at(s@, q + 1, close@);
                    }
                    Some(r + cl)
                },
                None => None,
            }
        } else {
            None
        }
    } else {
        None
    }
}

fn generic_end_exec(s: &str, i: usize, n: usize) -> (r: Option<usize>)
    requires
        n == s@.len(),
        i < n,
    ensures
        match r {
            Some(j) => generic_end(s@, i as int) == Some(j as int) && i < j <= n,
            None => generic_end(s@, i as int) is None,
        },
{
    if s.get_char(i) == '<' {
        let q = char_index_exec(s, i + 1, '>');
        proof {
            lemma_char_index(s@, i + 1, '>');
        }
        if q < n {
            Some(q + 1)
        } else {
            None
        }
    } else {
        None
    }
}

fn html_match_end_exec(s: &str, i: usize, n: usize) -> (r: Option<usize>)
    requires
        n == s@.len(),
        i < n,
    ensures
        match r {
            Some(j) => html_match_end(s@, i as int) == Some(j as int) && i < j <= n,
            None => html_match_end(s@, i as int) is None,
        },
{
    match comment_end_exec(s, i, n) {
        Some(j) => {
            return Some(j);
        },
        None => {},
    }
    match block_end_exec(s, i, n, "<style", "</style>") {
        Some(j) => {
            return Some(j);
        },
        None => {},
    }
    match block_end_exec(s, i, n, "<script", "</script>") {
        Some(j) => {
            return Some(j);
        },
        None => {},
    }
    generic_end_exec(s, i, n)
}

/// The text from position `i` on with every tag match replaced by `rep`:
/// at each position, either the preferred match is replaced and scanning
/// resumes at its end, or the character is kept.
pub open spec fn strip_tags(s: Seq<char>, i: int, rep: Seq<char>) -> Seq<char>
    decreases s.len() - i,
    via strip_tags_dec
{
    if i < 0 || i >= s.len() {
        Seq::empty()
    } else {
        match html_match_end(s, i) {
            Some(j) => rep + strip_tags(s, j, rep),
            None => seq![s[i]] + strip_tags(s, i + 1, rep),
        }
    }
}

#[via_fn]
proof fn strip_tags_dec(s: Seq<char>, i: int, rep: Seq<char>) {
    lemma_html_match_end_bounds(s, i);
}

fn replace_tags(s: &str, rep: &str) -> (r: String)
    ensures
        r@ == strip_tags(s@, 0, rep@),
{
    let n = s.unicode_len();
    let mut out = String::new();
    let mut i: usize = 0;
    while i < n
        invariant
            n == s@.len(),
            i <= n,
            strip_tags(s@, 0, rep@) == out@ + strip_tags(s@, i as int, rep@),
        decreases n - i,
    {
        let ghost pre = out@;
        match html_match_end_exec(s, i, n) {
            Some(j) => {
                out.append(rep);
                proof {
                    assert(strip_tags(s@, i as int, rep@) == rep@ + strip_tags(
                        s@,
                        j as int,
                        rep@,
                    ));
                    assert(pre + (rep@ + strip_tags(s@, j as int, rep@)) =~= (pre + rep@)
                        + strip_tags(s@, j as int, rep@));
                }
                i = j;
            },
            None => {
                let piece = s.substring_char(i, i + 1);
                out.append(piece);
                proof {
                    assert(piece@ =~= seq![s@[i as int]]);
                    assert(strip_tags(s@, i as int, rep@) == seq![s@[i as int]] + strip_tags(
                        s@,
                        i + 1,
                        rep@,
                    ));
                    assert(pre + (piece@ + strip_tags(s@, i + 1, rep@)) =~= (pre + piece@)
                        + strip_tags(s@, i + 1, rep@));
                }
                i = i + 1;
            },
        }
    }
    proof {
        assert(strip_tags(s@, n as int, rep@) =~= Seq::<char>::empty());
        assert(out@ + Seq::<char>::empty() =~= out@);
    }
    out
}

/// What stripping leaves of `s`: every tag match replaced by nothing.
pub open spec fn strip_html_spec(s: Seq<char>) -> Seq<char> {
    strip_tags(s, 0, Seq::empty())
}

/// Removes every comment, style/script block (contents included) and
/// generic tag from `html`; text without a match comes back unchanged.
pub fn strip_html(html: &str) -> (r: String)
    ensures
        r@ == strip_html_spec(html@),
{
    let r = replace_tags(html, "");
    proof {
        reveal_strlit("");
        assert(""@ =~= Seq::<char>::empty());
    }
    r
}

/// What `strip_html_for_tts` returns: each tag match becomes one space (so
/// adjacent words stay separated for speech), then entities are decoded.
pub open spec fn strip_html_for_tts_spec(s: Seq<char>) -> Seq<char> {
    decode_entities_spec(strip_tags(s, 0, " "@))
}

/// Like `strip_html`, but replaces each tag match with a single space and
/// decodes entities in the result.
pub fn strip_html_for_tts(html: &str) -> (r: String)
    ensures
        r@ == strip_html_for_tts_spec(html@),
{
    let stripped = replace_tags(html, " ");
    decode_entities(stripped.as_str())
}

pub open spec fn is_quote(c: char) -> bool {
    c == '\'' || c == '"'
}

fn is_quote_exec(c: char) -> (r: bool)
    ensures
        r == is_quote(c),
{
    c == '\'' || c == '"'
}

/// Position of the first quote character in `[from, until)`, or `until` if
/// there is none.
pub open spec fn quote_index(s: Seq<char>, from: int, until: int) -> int
    decreases until - from,
{
    if from < 0 || from >= until {
        until
    } else if is_quote(s[from]) {
        from
    } else {
        quote_index(s, from + 1, until)
    }
}

pub proof fn lemma_quote_index(s: Seq<char>, from: int, until: int)
    requires
        0 <= from <= until,
    ensures
        from <= quote_index(s, from, until) <= until,
        quote_index(s, from, until) < until ==> is_quote(s[quote_index(s, from, until)]),
        forall|k: int| from <= k < quote_index(s, from, until) ==> !is_quote(s[k]),
    decreases until - from,
{
    if from < until && !is_quote(s[from]) {
        lemma_quote_index(s, from + 1, until);
    }
}

fn quote_index_exec(s: &str, from: usize, until: usize, n: usize) -> (r: usize)
    requires
        n == s@.len(),
        from <= until <= n,
    ensures
        r as int == quote_index(s@, from as int, until as int),
{
    let mut i: usize = from;
    while i < until
        invariant
            n == s@.len(),
            from <= i <= until <= n,
            quote_index(s@, from as int, until as int) == quote_index(s@, i as int, until as int),
        decreases until - i,
    {
        if is_quote_exec(s.get_char(i)) {
            proof {
                assert(quote_index(s@, i as int, until as int) == i as int);
            }
            return i;
        }
        i = i + 1;
    }
    proof {
        assert(quote_index(s@, until as int, until as int) == until as int);
    }
    until
}

/// The span of the `src` attribute value beginning at `a` inside an `<img`
/// tag whose `>` stands at `e`: an optional opening quote, then at least
/// one character that is neither quote nor `>`, taken up to the next quote
/// or the end of the tag. `None` when that shape is not there.
pub open spec fn src_value_span(s: Seq<char>, a: int, e: int) -> Option<(int, int)> {
    if a < e && is_quote(s[a]) {
        if a + 1 < e && !is_quote(s[a + 1]) {
            Some((a + 1, quote_index(s, a + 2, e)))
        } else {
            None
        }
    } else if a < e {
        Some((a, quote_index(s, a + 1, e)))
    } else {
        None
    }
}

/// `src=` stands at `k` (case-insensitively) and a well-formed value
/// follows it, inside a tag whose `>` stands at `e`.
pub open spec fn img_src_at(s: Seq<char>, k: int, e: int) -> bool {
    matches_ci_at(s, k, "src="@) && src_value_span(s, k + 4, e) is Some
}

/// The greatest position in `[lo, k]` where a usable `src=` stands: the
/// attribute search is greedy, so of several `src=` attributes the last
/// one wins.
pub open spec fn last_src(s: Seq<char>, k: int, lo: int, e: int) -> Option<int>
    decreases k - lo + 1,
{
    if k < lo {
        None
    } else if img_src_at(s, k, e) {
        Some(k)
    } else {
        last_src(s, k - 1, lo, e)
    }
}

/// The `<img ...src=VALUE...>` match starting at `i`: `Some((gs, ge, j))`
/// gives the span `[gs, ge)` of the captured filename and the match end
/// `j`. The tag ends at the first `>`, must hold at least one character
/// between `<img` and `src=`, and of several `src=` attributes the last
/// usable one is captured.
pub open spec fn img_match(s: Seq<char>, i: int) -> Option<(int, int, int)> {
    if matches_ci_at(s, i, "<img"@) {
        let e = char_index(s, i + 4, '>');
        if e < s.len() {
            match last_src(s, e - 4, i + 5, e) {
                Some(k) => match src_value_span(s, k + 4, e) {
                    Some((gs, ge)) => Some((gs, ge, e + 1)),
                    None => None,
                },
                None => None,
            }
        } else {
            None
        }
    } else {
        None
    }
}

pub proof fn lemma_last_src(s: Seq<char>, k: int, lo: int, e: int)
    ensures
        match last_src(s, k, lo, e) {
            Some(r) => lo <= r <= k && img_src_at(s, r, e),
            None => true,
        },
    decreases k - lo + 1,
{
    if k >= lo && !img_src_at(s, k, e) {
        lemma_last_src(s, k - 1, lo, e);
    }
}

pub proof fn lemma_img_match_bounds(s: Seq<char>, i: int)
    ensures
        match img_match(s, i) {
            Some((gs, ge, j)) => 0 <= i < gs <= ge < j <= s.len(),
            None => true,
        },
{
    reveal_strlit("<img");
    reveal_strlit("src=");
    if matches_ci_at(s, i, "<img"@) {
        lemma_char_index(s, i + 4, '>');
        let e = char_index(s, i + 4, '>');
        if e < s.len() {
            lemma_last_src(s, e - 4, i + 5, e);
            match last_src(s, e - 4, i + 5, e) {
                Some(k) => {
                    let a = k + 4;
                    if a < e && is_quote(s[a]) {
                        if a + 1 < e && !is_quote(s[a + 1]) {
                            lemma_quote_index(s, a + 2, e);
                        }
                    } else if a < e {
                        lemma_quote_index(s, a + 1, e);
                    }
                },
                None => {},
            }
        }
    }
}

fn img_src_at_exec(s: &str, k: usize, e: usize, n: usize) -> (r: bool)
    requires
        n == s@.len(),
        k + 4 <= e,
        e < n,
    ensures
        r == img_src_at(s@, k as int, e as int),
{
    proof {
        reveal_strlit("src=");
    }
    if !ci_at(s, k, "src=") {
        return false;
    }
    let a = k + 4;
    if a >= e {
        return false;
    }
    if is_quote_exec(s.get_char(a)) {
        a + 1 < e && !is_quote_exec(s.get_char(a + 1))
    } else {
        true
    }
}

fn last_src_exec(s: &str, k: usize, lo: usize, e: usize, n: usize) -> (r: Option<usize>)
    requires
        n == s@.len(),
        1 <= lo <= k,
        k + 4 <= e,
        e < n,
    ensures
        match r {
            Some(u) => last_src(s@, k as int, lo as int, e as int) == Some(u as int) && lo <= u
                <= k,
            None => last_src(s@, k as int, lo as int, e as int) is None,
        },
    decreases k,
{
    if img_src_at_exec(s, k, e, n) {
        Some(k)
    } else if k == lo {
        proof {
            assert(last_src(s@, k - 1, lo as int, e as int) is None);
        }
        None
    } else {
        last_src_exec(s, k - 1, lo, e, n)
    }
}

fn img_match_exec(s: &str, i: usize, n: usize) -> (r: Option<(usize, usize, usize)>)
    requires
        n == s@.len(),
        i < n,
    ensures
        match r {
            Some((gs, ge, j)) => img_match(s@, i as int) == Some((gs as int, ge as int, j as int))
                && i < gs <= ge < j <= n,
            None => img_match(s@, i as int) is None,
        },
{
    proof {
        reveal_strlit("<img");
        reveal_strlit("src=");
    }
    if !(n - i >= 4 && ci_at(s, i, "<img")) {
        return None;
    }
    let e = char_index_exec(s, i + 4, '>');
    proof {
        lemma_char_index(s@, i + 4, '>');
    }
    if e >= n {
        return None;
    }
    if e - i < 9 {
        proof {
            assert(last_src(s@, e - 4, i + 5, e as int) is None);
        }
        return None;
    }
    match last_src_exec(s, e - 4, i + 5, e, n) {
        Some(k) => {
            proof {
                lemma_last_src(s@, e - 4, i + 5, e as int);
            }
            let a = k + 4;
            if is_quote_exec(s.get_char(a)) {
                let ge = quote_index_exec(s, a + 2, e, n);
                proof {
                    lemma_quote_index(s@, a + 2, e as int);
                }
                Some((a + 1, ge, e + 1))
            } else {
                let ge = quote_index_exec(s, a + 1, e, n);
                proof {
                    lemma_quote_index(s@, a + 1, e as int);
                }
                Some((a, ge, e + 1))
            }
        },
        None => None,
    }
}

/// The text from position `i` on with every `<img>` match replaced by its
/// captured filename surrounded by single spaces.
pub open spec fn rewrite_imgs_from(s: Seq<char>, i: int) -> Seq<char>
    decreases s.len() - i,
    via rewrite_imgs_dec
{
    if i < 0 || i >= s.len() {
        Seq::empty()
    } else {
        match img_match(s, i) {
            Some((gs, ge, j)) => seq![' '] + s.subrange(gs, ge) + seq![' '] + rewrite_imgs_from(
                s,
                j,
            ),
            None => seq![s[i]] + rewrite_imgs_from(s, i + 1),
        }
    }
}

#[via_fn]
proof fn rewrite_imgs_dec(s: Seq<char>, i: int) {
    lemma_img_match_bounds(s, i);
}

fn rewrite_imgs(s: &str) -> (r: String)
    ensures
        r@ == rewrite_imgs_from(s@, 0),
{
    let n = s.unicode_len();
    let mut out = String::new();
    let mut i: usize = 0;
    while i < n
        invariant
            n == s@.len(),
            i <= n,
            rewrite_imgs_from(s@, 0) == out@ + rewrite_imgs_from(s@, i as int),
        decreases n - i,
    {
        let ghost pre = out@;
        match img_match_exec(s, i, n) {
            Some((gs, ge, j)) => {
                out.append(" ");
                let name = s.substring_char(gs, ge);
                out.append(name);
                out.append(" ");
                proof {
                    reveal_strlit(" ");
                    assert(" "@ =~= seq![' ']);
                    assert(rewrite_imgs_from(s@, i as int) == seq![' '] + s@.subrange(
                        gs as int,
                        ge as int,
                    ) + seq![' '] + rewrite_imgs_from(s@, j as int));
                    assert(out@ =~= pre + (seq![' '] + s@.subrange(gs as int, ge as int)
                        + seq![' ']));
                    assert(pre + (seq![' '] + s@.subrange(gs as int, ge as int) + seq![' ']
                        + rewrite_imgs_from(s@, j as int)) =~= (pre + (seq![' '] + s@.subrange(
                        gs as int,
                        ge as int,
                    ) + seq![' '])) + rewrite_imgs_from(s@, j as int));
                }
                i = j;
            },
            None => {
                let piece = s.substring_char(i, i + 1);
                out.append(piece);
                proof {
                    assert(piece@ =~= seq![s@[i as int]]);
                    assert(rewrite_imgs_from(s@, i as int) == seq![s@[i as int]]
                        + rewrite_imgs_from(s@, i + 1));
                    assert(pre + (piece@ + rewrite_imgs_from(s@, i + 1)) =~= (pre + piece@)
                        + rewrite_imgs_from(s@, i + 1));
                }
                i = i + 1;
            },
        }
    }
    proof {
        assert(rewrite_imgs_from(s@, n as int) =~= Seq::<char>::empty());
        assert(out@ + Seq::<char>::empty() =~= out@);
    }
    out
}

/// What `strip_html_preserving_image_filenames` returns: every `<img>` tag
/// becomes its filename surrounded by single spaces, and every remaining
/// tag match is stripped.
pub open spec fn strip_html_preserving_image_filenames_spec(s: Seq<char>) -> Seq<char> {
    strip_html_spec(rewrite_imgs_from(s, 0))
}

/// Rewrites every `<img ...src=FILE...>` tag to ` FILE ` and strips all
/// remaining tags; text without either kind of match comes back unchanged.
pub fn strip_html_preserving_image_filenames(html: &str) -> (r: String)
    ensures
        r@ == strip_html_preserving_image_filenames_spec(html@),
{
    let rewritten = rewrite_imgs(html);
    strip_html(rewritten.as_str())
}

/// No `<` in `t` has a `>` anywhere after it — the shape of already
/// stripped text, in which no tag alternative can match.
pub open spec fn no_closable_lt(t: Seq<char>) -> bool {
    forall|a: int, b: int|
        #![trigger t[a], t[b]]
        0 <= a < b < t.len() && t[a] == '<' ==> t[b] != '>'
}

/// A position that holds no `<` starts no tag match.
pub proof fn lemma_no_match_without_lt(s: Seq<char>, k: int)
    requires
        0 <= k < s.len(),
        s[k] != '<',
    ensures
        html_match_end(s, k) is None,
{
    reveal_strlit("<!--");
    reveal_strlit("<style");
    reveal_strlit("<script");
    assert(!matches_at(s, k, "<!--"@)) by {
        if matches_at(s, k, "<!--"@) {
            assert(s[k + 0] == "<!--"@[0]);
        }
    }
    assert(!matches_ci_at(s, k, "<style"@)) by {
        if matches_ci_at(s, k, "<style"@) {
            assert(crate::scan::lower_char(s[k + 0]) == "<style"@[0]);
        }
    }
    assert(!matches_ci_at(s, k, "<script"@)) by {
        if matches_ci_at(s, k, "<script"@) {
            assert(crate::scan::lower_char(s[k + 0]) == "<script"@[0]);
        }
    }
}

/// In text of that shape no position starts a tag match: every alternative
/// needs a `>` strictly after its `<`.
pub proof fn lemma_no_closable_no_match(t: Seq<char>, k: int)
    requires
        no_closable_lt(t),
        0 <= k < t.len(),
    ensures
        html_match_end(t, k) is None,
{
    reveal_strlit("<!--");
    reveal_strlit("-->");
    reveal_strlit("<style");
    reveal_strlit("</style>");
    reveal_strlit("<script");
    reveal_strlit("</script>");
    if t[k] != '<' {
        lemma_no_match_without_lt(t, k);
    } else {
        if matches_at(t, k, "<!--"@) {
            lemma_find_at(t, k + 4, "-->"@);
            match find_at(t, k + 4, "-->"@) {
                Some(r) => {
                    assert(t[r + 2] == "-->"@[2]);
                    assert(t[k] == '<' && t[r + 2] == '>' && k < r + 2 < t.len());
                    assert(false);
                },
                None => {},
            }
        }
        if matches_ci_at(t, k, "<style"@) {
            lemma_char_index(t, k + 6, '>');
            let q = char_index(t, k + 6, '>');
            if q < t.len() {
                assert(t[k] == '<' && t[q] == '>' && k < q < t.len());
                assert(false);
            }
        }
        if matches_ci_at(t, k, "<script"@) {
            lemma_char_index(t, k + 7, '>');
            let q = char_index(t, k + 7, '>');
            if q < t.len() {
                assert(t[k] == '<' && t[q] == '>' && k < q < t.len());
                assert(false);
            }
        }
        lemma_char_index(t, k + 1, '>');
        let q = char_index(t, k + 1, '>');
        if q < t.len() {
            assert(t[k] == '<' && t[q] == '>' && k < q < t.len());
            assert(false);
        }
    }
}

/// Where no position from `i` on starts a match, stripping copies the text.
pub proof fn lemma_strip_tags_no_match(s: Seq<char>, i: int)
    requires
        0 <= i <= s.len(),
        forall|k: int| i <= k < s.len() ==> html_match_end(s, k) is None,
    ensures
        strip_tags(s, i, Seq::empty()) == s.subrange(i, s.len() as int),
    decreases s.len() - i,
{
    if i == s.len() {
        assert(strip_tags(s, i, Seq::empty()) =~= s.subrange(i, s.len() as int));
    } else {
        lemma_strip_tags_no_match(s, i + 1);
        assert(s.subrange(i, s.len() as int) =~= seq![s[i]] + s.subrange(i + 1, s.len() as int));
    }
}

/// Text in which no tag alternative matches anywhere is returned unchanged
/// by `strip_html`.
pub proof fn lemma_strip_html_no_tags(s: Seq<char>)
    requires
        forall|k: int| 0 <= k < s.len() ==> html_match_end(s, k) is None,
    ensures
        strip_html_spec(s) == s,
{
    lemma_strip_tags_no_match(s, 0);
    assert(s.subrange(0, s.len() as int) =~= s);
}

/// A character absent from `s[i..]` is absent from the stripped text.
proof fn lemma_strip_tags_no_char(s: Seq<char>, i: int, c: char)
    requires
        0 <= i,
        forall|k: int| i <= k < s.len() ==> s[k] != c,
    ensures
        forall|a: int|
            0 <= a < strip_tags(s, i, Seq::empty()).len() ==> strip_tags(s, i, Seq::empty())[a]
                != c,
    decreases s.len() - i,
{
    let e = Seq::<char>::empty();
    if i < s.len() {
        lemma_html_match_end_bounds(s, i);
        match html_match_end(s, i) {
            Some(j) => {
                lemma_strip_tags_no_char(s, j, c);
                assert(strip_tags(s, i, e) =~= strip_tags(s, j, e));
            },
            None => {
                lemma_strip_tags_no_char(s, i + 1, c);
                assert(strip_tags(s, i, e) =~= seq![s[i]] + strip_tags(s, i + 1, e));
            },
        }
    }
}

/// Stripped text has the `no_closable_lt` shape: a kept `<` is one at which
/// the generic alternative failed, so no `>` follows it in the source, and
/// hence none follows it in the output either.
pub proof fn lemma_strip_tags_shape(s: Seq<char>, i: int)
    requires
        0 <= i,
    ensures
        no_closable_lt(strip_tags(s, i, Seq::empty())),
    decreases s.len() - i,
{
    let e = Seq::<char>::empty();
    if i >= s.len() {
    } else {
        lemma_html_match_end_bounds(s, i);
        match html_match_end(s, i) {
            Some(j) => {
                lemma_strip_tags_shape(s, j);
                assert(strip_tags(s, i, e) =~= strip_tags(s, j, e));
            },
            None => {
                lemma_strip_tags_shape(s, i + 1);
                let rest = strip_tags(s, i + 1, e);
                let out = strip_tags(s, i, e);
                assert(out =~= seq![s[i]] + rest);
                if s[i] == '<' {
                    lemma_char_index(s, i + 1, '>');
                    assert(forall|k: int| i + 1 <= k < s.len() ==> s[k] != '>');
                    lemma_strip_tags_no_char(s, i + 1, '>');
                }
                assert forall|a: int, b: int|
                    0 <= a < b < out.len() && out[a] == '<' implies out[b] != '>' by {
                    if a == 0 {
                        assert(out[b] == rest[b - 1]);
                    } else {
                        assert(out[a] == rest[a - 1] && out[b] == rest[b - 1]);
                    }
                }
            },
        }
    }
}

/// Stripping is idempotent: a second pass finds nothing left to strip.
pub proof fn lemma_strip_html_idempotent(s: Seq<char>)
    ensures
        strip_html_spec(strip_html_spec(s)) == strip_html_spec(s),
{
    lemma_strip_tags_shape(s, 0);
    let t = strip_html_spec(s);
    assert forall|k: int| 0 <= k < t.len() implies html_match_end(t, k) is None by {
        lemma_no_closable_no_match(t, k);
    }
    lemma_strip_html_no_tags(t);
}

} // verus!

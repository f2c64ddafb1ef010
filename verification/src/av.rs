//! The audio/TTS directive dialect: `[sound:FILENAME]` and
//! `[anki:tts][ARGS]TEXT[/anki:tts]` markers embedded in field text, with
//! stripping, playback-placeholder flagging and parsing into `AVTag`
//! values.

use vstd::prelude::*;
use vstd::string::{StrSliceExecFns, StringExecFns};

use crate::entities::{decode_entities, decode_entities_spec};
use crate::html::{strip_html_for_tts, strip_html_for_tts_spec};
use crate::scan::{char_index, char_index_exec, eq_at, find_at, find_at_exec, lemma_char_index,
    lemma_find_at, matches_at};

verus! {

/// One parsed audio/speech directive.
#[derive(Debug, PartialEq)]
pub enum AVTag {
    /// A `[sound:...]` directive; the filename is entity-decoded.
    SoundOrVideo(String),
    /// An `[anki:tts]` directive: the enclosed text with HTML stripped for
    /// speech, the first argument token as language, the comma-separated
    /// values of a `voices=` argument, and the remaining argument tokens.
    TextToSpeech { field_text: String, lang: String, voices: Vec<String>, other_args: Vec<
        String,
    > },
}

/// The mathematical shape of one parsed directive.
pub enum AvTagModel {
    SoundOrVideo { filename: Seq<char> },
    TextToSpeech {
        field_text: Seq<char>,
        lang: Seq<char>,
        voices: Seq<Seq<char>>,
        other_args: Seq<Seq<char>>,
    },
}

impl View for AVTag {
    type V = AvTagModel;

    open spec fn view(&self) -> AvTagModel {
        match self {
            AVTag::SoundOrVideo(f) => AvTagModel::SoundOrVideo { filename: f@ },
            AVTag::TextToSpeech { field_text, lang, voices, other_args } => {
                AvTagModel::TextToSpeech {
                    field_text: field_text@,
                    lang: lang@,
                    voices: voices.deep_view(),
                    other_args: other_args.deep_view(),
                }
            },
        }
    }
}

impl DeepView for AVTag {
    type V = AvTagModel;

    open spec fn deep_view(&self) -> AvTagModel {
        self.view()
    }
}

/// The tokens of `s[from..]`, split at every `c`; like the splitting
/// iterator of `str`, it yields one (possibly empty) token more than there
/// are separators, so the result is never empty.
pub open spec fn split_from(s: Seq<char>, from: int, c: char) -> Seq<Seq<char>>
    decreases s.len() - from,
    via split_from_dec
{
    if from < 0 || from > s.len() {
        Seq::empty()
    } else {
        let p = char_index(s, from, c);
        if p >= s.len() {
            seq![s.subrange(from, s.len() as int)]
        } else {
            seq![s.subrange(from, p)] + split_from(s, p + 1, c)
        }
    }
}

#[via_fn]
proof fn split_from_dec(s: Seq<char>, from: int, c: char) {
    if 0 <= from <= s.len() {
        lemma_char_index(s, from, c);
    }
}

/// Splitting yields at least one token.
pub proof fn lemma_split_from_nonempty(s: Seq<char>, from: int, c: char)
    requires
        0 <= from <= s.len(),
    ensures
        split_from(s, from, c).len() >= 1,
{
    lemma_char_index(s, from, c);
}

fn split_push(s: &str, from: usize, n: usize, c: char, out: &mut Vec<String>)
    requires
        n == s@.len(),
        from <= n,
    ensures
        final(out).deep_view() == old(out).deep_view() + split_from(s@, from as int, c),
    decreases n - from,
{
    let p = char_index_exec(s, from, c);
    proof {
        lemma_char_index(s@, from as int, c);
    }
    if p >= n {
        let tok = s.substring_char(from, n);
        let ghost pre = out.deep_view();
        out.push(tok.to_owned());
        proof {
            assert(out.deep_view() =~= pre + seq![s@.subrange(from as int, n as int)]);
            assert(split_from(s@, from as int, c) =~= seq![
                s@.subrange(from as int, n as int),
            ]);
        }
    } else {
        let tok = s.substring_char(from, p);
        let ghost pre = out.deep_view();
        out.push(tok.to_owned());
        proof {
            assert(out.deep_view() =~= pre + seq![s@.subrange(from as int, p as int)]);
        }
        split_push(s, p + 1, n, c, out);
        proof {
            assert(split_from(s@, from as int, c) == seq![s@.subrange(from as int, p as int)]
                + split_from(s@, p + 1, c));
            assert(pre + (seq![s@.subrange(from as int, p as int)] + split_from(s@, p + 1, c))
                =~= (pre + seq![s@.subrange(from as int, p as int)]) + split_from(
                s@,
                p + 1,
                c,
            ));
        }
    }
}

fn split_exec(s: &str, c: char) -> (r: Vec<String>)
    ensures
        r.deep_view() == split_from(s@, 0, c),
{
    let n = s.unicode_len();
    let mut out: Vec<String> = Vec::new();
    proof {
        assert(out.deep_view() =~= Seq::<Seq<char>>::empty());
    }
    split_push(s, 0, n, c, &mut out);
    proof {
        assert(Seq::<Seq<char>>::empty() + split_from(s@, 0, c) =~= split_from(s@, 0, c));
    }
    out
}

/// An argument token that assigns the voice list.
pub open spec fn is_voices_token(t: Seq<char>) -> bool {
    matches_at(t, 0, "voices="@)
}

/// The value of a `voices=` token: the text between the first and second
/// `=` (or the end), split at every comma.
pub open spec fn voices_value(t: Seq<char>) -> Seq<Seq<char>> {
    let q = char_index(t, 7, '=');
    split_from(t.subrange(7, q), 0, ',')
}

fn is_voices_token_exec(t: &str) -> (r: bool)
    ensures
        r == is_voices_token(t@),
{
    proof {
        reveal_strlit("voices=");
    }
    let n = t.unicode_len();
    if n >= 7 {
        eq_at(t, 0, "voices=")
    } else {
        false
    }
}

fn voices_value_exec(t: &str) -> (r: Vec<String>)
    requires
        is_voices_token(t@),
    ensures
        r.deep_view() == voices_value(t@),
{
    proof {
        reveal_strlit("voices=");
    }
    let q = char_index_exec(t, 7, '=');
    proof {
        lemma_char_index(t@, 7, '=');
    }
    let sub = t.substring_char(7, q);
    split_exec(sub, ',')
}

/// Scanning the argument tokens after the language: a `voices=` token
/// (re)assigns the voice list, so of several the last one wins; every
/// other token is appended, in order, to the remaining arguments.
pub open spec fn tts_fold(
    tokens: Seq<Seq<char>>,
    voices: Option<Seq<Seq<char>>>,
    other: Seq<Seq<char>>,
) -> (Option<Seq<Seq<char>>>, Seq<Seq<char>>)
    decreases tokens.len(),
{
    if tokens.len() == 0 {
        (voices, other)
    } else {
        let t = tokens[0];
        if is_voices_token(t) {
            tts_fold(tokens.drop_first(), Some(voices_value(t)), other)
        } else {
            tts_fold(tokens.drop_first(), voices, other.push(t))
        }
    }
}

/// The `TextToSpeech` value parsed from a field text and an argument
/// string: the first space-separated token is the language (empty when the
/// argument string is empty), and the field text is stripped for speech.
pub open spec fn tts_model(field: Seq<char>, args: Seq<char>) -> AvTagModel {
    let tokens = split_from(args, 0, ' ');
    let fold = tts_fold(tokens.drop_first(), None, Seq::empty());
    AvTagModel::TextToSpeech {
        field_text: strip_html_for_tts_spec(field),
        lang: tokens[0],
        voices: match fold.0 {
            Some(v) => v,
            None => Seq::empty(),
        },
        other_args: fold.1,
    }
}

/// Parses a TTS argument string against its enclosed field text.
pub fn tts_tag_from_string(field_text: &str, args: &str) -> (r: AVTag)
    ensures
        r@ == tts_model(field_text@, args@),
{
    let tokens = split_exec(args, ' ');
    proof {
        lemma_split_from_nonempty(args@, 0, ' ');
        assert(tokens.deep_view().len() == tokens@.len());
    }
    let lang = tokens[0].clone();
    let mut voices: Option<Vec<String>> = None;
    let mut other_args: Vec<String> = Vec::new();
    let mut idx: usize = 1;
    proof {
        assert(other_args.deep_view() =~= Seq::<Seq<char>>::empty());
        assert(tokens.deep_view().drop_first() =~= tokens.deep_view().subrange(
            1,
            tokens.deep_view().len() as int,
        ));
    }
    while idx < tokens.len()
        invariant
            1 <= idx <= tokens@.len(),
            tokens.deep_view().len() == tokens@.len(),
            tts_fold(
                tokens.deep_view().drop_first(),
                None,
                Seq::empty(),
            ) == tts_fold(
                tokens.deep_view().subrange(idx as int, tokens.deep_view().len() as int),
                match voices {
                    Some(v) => Some(v.deep_view()),
                    None => None,
                },
                other_args.deep_view(),
            ),
        decreases tokens@.len() - idx,
    {
        let ghost rest = tokens.deep_view().subrange(idx as int, tokens.deep_view().len() as int);
        proof {
            assert(rest[0] == tokens.deep_view()[idx as int]);
            assert(rest.drop_first() =~= tokens.deep_view().subrange(
                idx + 1,
                tokens.deep_view().len() as int,
            ));
        }
        let t = &tokens[idx];
        if is_voices_token_exec(t.as_str()) {
            let v = voices_value_exec(t.as_str());
            voices = Some(v);
        } else {
            let ghost pre = other_args.deep_view();
            other_args.push(t.clone());
            proof {
                assert(other_args.deep_view() =~= pre.push(t@));
            }
        }
        idx = idx + 1;
    }
    proof {
        assert(tokens.deep_view().subrange(idx as int, tokens.deep_view().len() as int)
            =~= Seq::<Seq<char>>::empty());
    }
    let field = strip_html_for_tts(field_text);
    let ghost vmodel: Option<Seq<Seq<char>>> = match &voices {
        Some(v) => Some(v.deep_view()),
        None => None,
    };
    let voices_vec: Vec<String> = match voices {
        Some(v) => v,
        None => Vec::new(),
    };
    proof {
        if vmodel is None {
            assert(voices_vec.deep_view() =~= Seq::<Seq<char>>::empty());
        }
    }
    AVTag::TextToSpeech {
        field_text: field,
        lang: lang,
        voices: voices_vec,
        other_args: other_args,
    }
}

/// End position of a `[sound:FILENAME]` directive starting at `i`: the
/// filename runs to the first `]`.
pub open spec fn sound_end(s: Seq<char>, i: int) -> Option<int> {
    if matches_at(s, i, "[sound:"@) {
        let q = char_index(s, i + 7, ']');
        if q < s.len() {
            Some(q + 1)
        } else {
            None
        }
    } else {
        None
    }
}

/// End position of an `[anki:tts][ARGS]TEXT[/anki:tts]` directive starting
/// at `i`: the arguments run to the first `]`, the text to the earliest
/// closing marker after them.
pub open spec fn tts_end(s: Seq<char>, i: int) -> Option<int> {
    if matches_at(s, i, "[anki:tts]["@) {
        let q = char_index(s, i + 11, ']');
        if q < s.len() {
            match find_at(s, q + 1, "[/anki:tts]"@) {
                Some(r) => Some(r + 11),
                None => None,
            }
        } else {
            None
        }
    } else {
        None
    }
}

/// End position of the directive starting at `i`, sound tried first.
pub open spec fn av_end(s: Seq<char>, i: int) -> Option<int> {
    if sound_end(s, i) is Some {
        sound_end(s, i)
    } else {
        tts_end(s, i)
    }
}

pub proof fn lemma_av_end_bounds(s: Seq<char>, i: int)
    ensures
        match av_end(s, i) {
            Some(j) => 0 <= i < j <= s.len(),
            None => true,
        },
{
    reveal_strlit("[sound:");
    reveal_strlit("[anki:tts][");
    reveal_strlit("[/anki:tts]");
    if matches_at(s, i, "[sound:"@) {
        lemma_char_index(s, i + 7, ']');
    }
    if matches_at(s, i, "[anki:tts]["@) {
        lemma_char_index(s, i + 11, ']');
        let q = char_index(s, i + 11, ']');
        if q < s.len() {
            lemma_find_at(s, q + 1, "[/anki:tts]"@);
        }
    }
}

fn sound_end_exec(s: &str, i: usize, n: usize) -> (r: Option<usize>)
    requires
        n == s@.len(),
        i < n,
    ensures
        match r {
            Some(j) => sound_end(s@, i as int) == Some(j as int) && i + 8 <= j <= n,
            None => sound_end(s@, i as int) is None,
        },
{
    proof {
        reveal_strlit("[sound:");
    }
    if n - i >= 7 && eq_at(s, i, "[sound:") {
        let q = char_index_exec(s, i + 7, ']');
        proof {
            lemma_char_index(s@, i + 7, ']');
        }
        if q < n {
            Some(q + 1)
        } else {
            None
        }
    } else {
        None
    }
}

fn tts_end_exec(s: &str, i: usize, n: usize) -> (r: Option<(usize, usize)>)
    requires
        n == s@.len(),
        i < n,
    ensures
        match r {
            Some((q, j)) => tts_end(s@, i as int) == Some(j as int) && q as int == char_index(
                s@,
                i + 11,
                ']',
            ) && i + 11 <= q && q + 1 <= j - 11 && j <= n && i + 23 <= j,
            None => tts_end(s@, i as int) is None,
        },
{
    proof {
        reveal_strlit("[anki:tts][");
        reveal_strlit("[/anki:tts]");
    }
    if n - i >= 11 && eq_at(s, i, "[anki:tts][") {
        let q = char_index_exec(s, i + 11, ']');
        proof {
            lemma_char_index(s@, i + 11, ']');
        }
        if q < n {
            match find_at_exec(s, q + 1, "[/anki:tts]") {
                Some(r) => {
                    proof {
                        lemma_find_at(s@, q + 1, "[/anki:tts]"@);
                    }
                    Some((q, r + 11))
                },
                None => None,
            }
        } else {
            None
        }
    } else {
        None
    }
}

fn av_end_exec(s: &str, i: usize, n: usize) -> (r: Option<usize>)
    requires
        n == s@.len(),
        i < n,
    ensures
        match r {
            Some(j) => av_end(s@, i as int) == Some(j as int) && i + 8 <= j <= n,
            None => av_end(s@, i as int) is None,
        },
{
    match sound_end_exec(s, i, n) {
        Some(j) => Some(j),
        None => match tts_end_exec(s, i, n) {
            Some((q, j)) => Some(j),
            None => None,
        },
    }
}

/// The text from position `i` on with every directive match removed.
pub open spec fn strip_av_from(s: Seq<char>, i: int) -> Seq<char>
    decreases s.len() - i,
    via strip_av_from_dec
{
    if i < 0 || i >= s.len() {
        Seq::empty()
    } else {
        match av_end(s, i) {
            Some(j) => strip_av_from(s, j),
            None => seq![s[i]] + strip_av_from(s, i + 1),
        }
    }
}

#[via_fn]
proof fn strip_av_from_dec(s: Seq<char>, i: int) {
    lemma_av_end_bounds(s, i);
}

/// What `strip_av_tags` returns.
pub open spec fn strip_av_tags_spec(s: Seq<char>) -> Seq<char> {
    strip_av_from(s, 0)
}

/// Removes every `[sound:...]` and `[anki:tts]...[/anki:tts]` directive;
/// a malformed directive fails to match and is left untouched.
pub fn strip_av_tags(text: &str) -> (r: String)
    ensures
        r@ == strip_av_tags_spec(text@),
{
    let n = text.unicode_len();
    let mut out = String::new();
    let mut i: usize = 0;
    while i < n
        invariant
            n == text@.len(),
            i <= n,
            strip_av_from(text@, 0) == out@ + strip_av_from(text@, i as int),
        decreases n - i,
    {
        let ghost pre = out@;
        match av_end_exec(text, i, n) {
            Some(j) => {
                proof {
                    assert(strip_av_from(text@, i as int) == strip_av_from(text@, j as int));
                }
                i = j;
            },
            None => {
                let piece = text.substring_char(i, i + 1);
                out.append(piece);
                proof {
                    assert(piece@ =~= seq![text@[i as int]]);
                    assert(strip_av_from(text@, i as int) == seq![text@[i as int]]
                        + strip_av_from(text@, i + 1));
                    assert(pre + (piece@ + strip_av_from(text@, i + 1)) =~= (pre + piece@)
                        + strip_av_from(text@, i + 1));
                }
                i = i + 1;
            },
        }
    }
    proof {
        assert(strip_av_from(text@, n as int) =~= Seq::<char>::empty());
        assert(out@ + Seq::<char>::empty() =~= out@);
    }
    out
}

pub open spec fn dec_digit(n: int) -> char {
    if n == 0 {
        '0'
    } else if n == 1 {
        '1'
    } else if n == 2 {
        '2'
    } else if n == 3 {
        '3'
    } else if n == 4 {
        '4'
    } else if n == 5 {
        '5'
    } else if n == 6 {
        '6'
    } else if n == 7 {
        '7'
    } else if n == 8 {
        '8'
    } else {
        '9'
    }
}

/// The decimal digits of `n`, most significant first.
pub open spec fn dec_seq(n: int) -> Seq<char>
    decreases n,
{
    if n < 10 {
        seq![dec_digit(n)]
    } else {
        dec_seq(n / 10) + seq![dec_digit(n % 10)]
    }
}

fn digit_str(d: usize) -> (r: &'static str)
    requires
        d < 10,
    ensures
        r@ == seq![dec_digit(d as int)],
{
    let r: &'static str = match d {
        0 => "0",
        1 => "1",
        2 => "2",
        3 => "3",
        4 => "4",
        5 => "5",
        6 => "6",
        7 => "7",
        8 => "8",
        _ => "9",
    };
    proof {
        reveal_strlit("0");
        reveal_strlit("1");
        reveal_strlit("2");
        reveal_strlit("3");
        reveal_strlit("4");
        reveal_strlit("5");
        reveal_strlit("6");
        reveal_strlit("7");
        reveal_strlit("8");
        reveal_strlit("9");
        assert(r@ =~= seq![dec_digit(d as int)]);
    }
    r
}

fn push_decimal(v: usize, out: &mut String)
    ensures
        final(out)@ == old(out)@ + dec_seq(v as int),
    decreases v,
{
    if v < 10 {
        out.append(digit_str(v));
    } else {
        let ghost pre = out@;
        push_decimal(v / 10, out);
        out.append(digit_str(v % 10));
        proof {
            assert(pre + (dec_seq(v as int / 10) + seq![dec_digit(v as int % 10)]) =~= (pre
                + dec_seq(v as int / 10)) + seq![dec_digit(v as int % 10)]);
        }
    }
}

/// The text from position `i` on with the directive matches replaced, in
/// order of appearance, by the numbered placeholders
/// `[anki:play]idx[/anki:play]`, `[anki:play]idx+1[/anki:play]`, ...
pub open spec fn flag_av_from(s: Seq<char>, i: int, idx: int) -> Seq<char>
    decreases s.len() - i,
    via flag_av_from_dec
{
    if i < 0 || i >= s.len() {
        Seq::empty()
    } else {
        match av_end(s, i) {
            Some(j) => "[anki:play]"@ + dec_seq(idx) + "[/anki:play]"@ + flag_av_from(
                s,
                j,
                idx + 1,
            ),
            None => seq![s[i]] + flag_av_from(s, i + 1, idx),
        }
    }
}

#[via_fn]
proof fn flag_av_from_dec(s: Seq<char>, i: int, idx: int) {
    lemma_av_end_bounds(s, i);
}

/// What `flag_av_tags` returns: placeholder numbering starts at 0 on each
/// call.
pub open spec fn flag_av_tags_spec(s: Seq<char>) -> Seq<char> {
    flag_av_from(s, 0, 0)
}

/// Replaces the Nth directive match (0-indexed, left to right) with the
/// placeholder `[anki:play]N[/anki:play]`, so a downstream consumer can
/// correlate each placeholder with the Nth parsed tag.
pub fn flag_av_tags(text: &str) -> (r: String)
    ensures
        r@ == flag_av_tags_spec(text@),
{
    let n = text.unicode_len();
    let mut out = String::new();
    let mut i: usize = 0;
    let mut idx: usize = 0;
    while i < n
        invariant
            n == text@.len(),
            i <= n,
            8 * idx <= i,
            flag_av_from(text@, 0, 0) == out@ + flag_av_from(text@, i as int, idx as int),
        decreases n - i,
    {
        let ghost pre = out@;
        match av_end_exec(text, i, n) {
            Some(j) => {
                out.append("[anki:play]");
                push_decimal(idx, &mut out);
                out.append("[/anki:play]");
                proof {
                    assert(flag_av_from(text@, i as int, idx as int) == "[anki:play]"@ + dec_seq(
                        idx as int,
                    ) + "[/anki:play]"@ + flag_av_from(text@, j as int, idx + 1));
                    assert(out@ =~= pre + ("[anki:play]"@ + dec_seq(idx as int)
                        + "[/anki:play]"@));
                    assert(pre + ("[anki:play]"@ + dec_seq(idx as int) + "[/anki:play]"@
                        + flag_av_from(text@, j as int, idx + 1)) =~= (pre + ("[anki:play]"@
                        + dec_seq(idx as int) + "[/anki:play]"@)) + flag_av_from(
                        text@,
                        j as int,
                        idx + 1,
                    ));
                }
                i = j;
                idx = idx + 1;
            },
            None => {
                let piece = text.substring_char(i, i + 1);
                out.append(piece);
                proof {
                    assert(piece@ =~= seq![text@[i as int]]);
                    assert(flag_av_from(text@, i as int, idx as int) == seq![text@[i as int]]
                        + flag_av_from(text@, i + 1, idx as int));
                    assert(pre + (piece@ + flag_av_from(text@, i + 1, idx as int)) =~= (pre
                        + piece@) + flag_av_from(text@, i + 1, idx as int));
                }
                i = i + 1;
            },
        }
    }
    proof {
        assert(flag_av_from(text@, n as int, idx as int) =~= Seq::<char>::empty());
        assert(out@ + Seq::<char>::empty() =~= out@);
    }
    out
}

/// The `SoundOrVideo` value of the sound directive starting at `i`: its
/// filename, entity-decoded.
pub open spec fn sound_model(s: Seq<char>, i: int) -> AvTagModel {
    let q = char_index(s, i + 7, ']');
    AvTagModel::SoundOrVideo { filename: decode_entities_spec(s.subrange(i + 7, q)) }
}

/// The `TextToSpeech` value of the TTS directive starting at `i`.
pub open spec fn tts_model_at(s: Seq<char>, i: int) -> AvTagModel {
    let q = char_index(s, i + 11, ']');
    match find_at(s, q + 1, "[/anki:tts]"@) {
        Some(r) => tts_model(s.subrange(q + 1, r), s.subrange(i + 11, q)),
        None => arbitrary(),
    }
}

/// The directives of `s[i..]`, in order of appearance.
pub open spec fn av_tags_from(s: Seq<char>, i: int) -> Seq<AvTagModel>
    decreases s.len() - i,
    via av_tags_from_dec
{
    if i < 0 || i >= s.len() {
        Seq::empty()
    } else if sound_end(s, i) is Some {
        match sound_end(s, i) {
            Some(j) => seq![sound_model(s, i)] + av_tags_from(s, j),
            None => Seq::empty(),
        }
    } else {
        match tts_end(s, i) {
            Some(j) => seq![tts_model_at(s, i)] + av_tags_from(s, j),
            None => av_tags_from(s, i + 1),
        }
    }
}

#[via_fn]
proof fn av_tags_from_dec(s: Seq<char>, i: int) {
    lemma_av_end_bounds(s, i);
}

/// What `av_tags_in_string` returns.
pub open spec fn av_tags_in_string_spec(s: Seq<char>) -> Seq<AvTagModel> {
    av_tags_from(s, 0)
}

/// Parses every directive of `text`, in order of appearance: sound
/// filenames are entity-decoded, TTS directives get their argument string
/// parsed and their field text stripped for speech. A fresh call on the
/// same text yields the same sequence.
pub fn av_tags_in_string(text: &str) -> (r: Vec<AVTag>)
    ensures
        r.deep_view() == av_tags_in_string_spec(text@),
{
    let n = text.unicode_len();
    let mut out: Vec<AVTag> = Vec::new();
    let mut i: usize = 0;
    proof {
        assert(out.deep_view() =~= Seq::<AvTagModel>::empty());
    }
    while i < n
        invariant
            n == text@.len(),
            i <= n,
            av_tags_from(text@, 0) == out.deep_view() + av_tags_from(text@, i as int),
        decreases n - i,
    {
        let ghost pre = out.deep_view();
        match sound_end_exec(text, i, n) {
            Some(j) => {
                let fname = text.substring_char(i + 7, j - 1);
                let decoded = decode_entities(fname);
                let tag = AVTag::SoundOrVideo(decoded);
                proof {
                    assert(char_index(text@, i + 7, ']') == j - 1);
                    assert(tag@ == sound_model(text@, i as int));
                }
                out.push(tag);
                proof {
                    assert(out.deep_view() =~= pre + seq![sound_model(text@, i as int)]);
                    assert(av_tags_from(text@, i as int) == seq![sound_model(text@, i as int)]
                        + av_tags_from(text@, j as int));
                    assert(pre + (seq![sound_model(text@, i as int)] + av_tags_from(
                        text@,
                        j as int,
                    )) =~= (pre + seq![sound_model(text@, i as int)]) + av_tags_from(
                        text@,
                        j as int,
                    ));
                }
                i = j;
            },
            None => match tts_end_exec(text, i, n) {
                Some((q, j)) => {
                    let args = text.substring_char(i + 11, q);
                    let field = text.substring_char(q + 1, j - 11);
                    let tag = tts_tag_from_string(field, args);
                    proof {
                        assert(tag@ == tts_model_at(text@, i as int));
                    }
                    out.push(tag);
                    proof {
                        assert(out.deep_view() =~= pre + seq![tts_model_at(text@, i as int)]);
                        assert(av_tags_from(text@, i as int) == seq![
                            tts_model_at(text@, i as int),
                        ] + av_tags_from(text@, j as int));
                        assert(pre + (seq![tts_model_at(text@, i as int)] + av_tags_from(
                            text@,
                            j as int,
                        )) =~= (pre + seq![tts_model_at(text@, i as int)]) + av_tags_from(
                            text@,
                            j as int,
                        ));
                    }
                    i = j;
                },
                None => {
                    proof {
                        assert(av_tags_from(text@, i as int) == av_tags_from(text@, i + 1));
                    }
                    i = i + 1;
                },
            },
        }
    }
    proof {
        assert(av_tags_from(text@, n as int) =~= Seq::<AvTagModel>::empty());
        assert(out.deep_view() + Seq::<AvTagModel>::empty() =~= out.deep_view());
    }
    out
}

/// The parts joined with `c` between them: the inverse of splitting.
pub open spec fn join_with(parts: Seq<Seq<char>>, c: char) -> Seq<char>
    decreases parts.len(),
{
    if parts.len() == 0 {
        Seq::empty()
    } else if parts.len() == 1 {
        parts[0]
    } else {
        parts[0] + seq![c] + join_with(parts.drop_first(), c)
    }
}

/// Joining undoes splitting.
pub proof fn lemma_join_split(s: Seq<char>, from: int, c: char)
    requires
        0 <= from <= s.len(),
    ensures
        join_with(split_from(s, from, c), c) == s.subrange(from, s.len() as int),
    decreases s.len() - from,
{
    lemma_char_index(s, from, c);
    let p = char_index(s, from, c);
    if p < s.len() {
        lemma_join_split(s, p + 1, c);
        lemma_split_from_nonempty(s, p + 1, c);
        let parts = split_from(s, from, c);
        assert(parts.drop_first() =~= split_from(s, p + 1, c));
        assert(s.subrange(from, p) + seq![c] + s.subrange(p + 1, s.len() as int) =~= s.subrange(
            from,
            s.len() as int,
        ));
    }
}

/// A `voices=` token whose value holds no further `=` is rebuilt exactly
/// by re-joining its comma-split value.
pub proof fn lemma_voices_token_round_trip(t: Seq<char>)
    requires
        is_voices_token(t),
        char_index(t, 7, '=') == t.len(),
    ensures
        "voices="@ + join_with(voices_value(t), ',') == t,
{
    reveal_strlit("voices=");
    let value = t.subrange(7, t.len() as int);
    lemma_join_split(value, 0, ',');
    assert(value.subrange(0, value.len() as int) =~= value);
    assert("voices="@ + value =~= t);
}

/// The argument tokens that a parse outcome stands for: the remaining
/// arguments, together with the voices assignment rebuilt as one token.
pub open spec fn rebuilt_tokens(
    fold: (Option<Seq<Seq<char>>>, Seq<Seq<char>>),
) -> vstd::multiset::Multiset<Seq<char>> {
    match fold.0 {
        Some(v) => fold.1.to_multiset().insert("voices="@ + join_with(v, ',')),
        None => fold.1.to_multiset(),
    }
}

proof fn lemma_fold_round_trip(
    rest: Seq<Seq<char>>,
    vo: Option<Seq<Seq<char>>>,
    oo: Seq<Seq<char>>,
)
    requires
        forall|a: int|
            0 <= a < rest.len() && is_voices_token(#[trigger] rest[a]) ==> char_index(
                rest[a],
                7,
                '=',
            ) == rest[a].len(),
        forall|a: int, b: int|
            0 <= a < b < rest.len() ==> !(is_voices_token(#[trigger] rest[a]) && is_voices_token(
                #[trigger] rest[b],
            )),
        vo is Some ==> forall|a: int| 0 <= a < rest.len() ==> !is_voices_token(#[trigger] rest[a]),
    ensures
        rebuilt_tokens(tts_fold(rest, vo, oo)) == rebuilt_tokens((vo, oo)).add(rest.to_multiset()),
    decreases rest.len(),
{
    broadcast use vstd::seq_lib::group_to_multiset_ensures;
    broadcast use vstd::multiset::group_multiset_axioms;

    if rest.len() == 0 {
        assert forall|x: Seq<char>|
            rest.to_multiset().count(x) == vstd::multiset::Multiset::<Seq<char>>::empty().count(
                x,
            ) by {
            assert(!rest.contains(x));
        }
        assert(rest.to_multiset() =~= vstd::multiset::Multiset::<Seq<char>>::empty());
        assert(rebuilt_tokens((vo, oo)).add(rest.to_multiset()) =~= rebuilt_tokens((vo, oo)));
    } else {
        let t = rest[0];
        let rest1 = rest.drop_first();
        assert(rest.remove(0) =~= rest1);
        assert(rest1.to_multiset() =~= rest.to_multiset().remove(t));
        assert(rest.contains(t));
        assert(rest.to_multiset().count(t) > 0);
        assert(rest.to_multiset() =~= rest1.to_multiset().insert(t));
        assert(forall|a: int| 0 <= a < rest1.len() ==> #[trigger] rest1[a] == rest[a + 1]);
        if is_voices_token(t) {
            assert(!(vo is Some));
            let vo1 = Some(voices_value(t));
            assert(forall|a: int| 0 <= a < rest1.len() ==> !is_voices_token(#[trigger] rest1[a]));
            lemma_fold_round_trip(rest1, vo1, oo);
            lemma_voices_token_round_trip(t);
            assert(rebuilt_tokens((vo1, oo)) =~= oo.to_multiset().insert(t));
            assert(oo.to_multiset().insert(t).add(rest1.to_multiset()) =~= oo.to_multiset().add(
                rest1.to_multiset().insert(t),
            ));
        } else {
            lemma_fold_round_trip(rest1, vo, oo.push(t));
            assert(oo.push(t).to_multiset() =~= oo.to_multiset().insert(t));
            match vo {
                Some(v) => {
                    let rc = "voices="@ + join_with(v, ',');
                    assert(oo.to_multiset().insert(t).insert(rc).add(rest1.to_multiset())
                        =~= oo.to_multiset().insert(rc).add(rest1.to_multiset().insert(t)));
                },
                None => {
                    assert(oo.to_multiset().insert(t).add(rest1.to_multiset())
                        =~= oo.to_multiset().add(rest1.to_multiset().insert(t)));
                },
            }
        }
    }
}

/// Where the argument tokens after the language hold at most one `voices=`
/// assignment, and its value holds no further `=`, the parsed voices and
/// remaining arguments together rebuild the original token multiset: the
/// re-joined voices value as one token, the rest as themselves.
pub proof fn lemma_tts_args_round_trip(rest: Seq<Seq<char>>)
    requires
        forall|a: int|
            0 <= a < rest.len() && is_voices_token(#[trigger] rest[a]) ==> char_index(
                rest[a],
                7,
                '=',
            ) == rest[a].len(),
        forall|a: int, b: int|
            0 <= a < b < rest.len() ==> !(is_voices_token(#[trigger] rest[a]) && is_voices_token(
                #[trigger] rest[b],
            )),
    ensures
        rebuilt_tokens(tts_fold(rest, None, Seq::empty())) == rest.to_multiset(),
{
    broadcast use vstd::seq_lib::group_to_multiset_ensures;
    broadcast use vstd::multiset::group_multiset_axioms;

    lemma_fold_round_trip(rest, None, Seq::empty());
    let e = Seq::<Seq<char>>::empty();
    assert forall|x: Seq<char>|
        e.to_multiset().count(x) == vstd::multiset::Multiset::<Seq<char>>::empty().count(x) by {
        assert(!e.contains(x));
    }
    assert(e.to_multiset() =~= vstd::multiset::Multiset::<Seq<char>>::empty());
    assert(e.to_multiset().add(rest.to_multiset()) =~= rest.to_multiset());
}

} // verus!

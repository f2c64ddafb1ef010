use cardtext::{av_tags_in_string, cloze_numbers_in_string, decode_entities, flag_av_tags,
    strip_av_tags, strip_html, strip_html_for_tts, strip_html_preserving_image_filenames,
    tts_tag_from_string, AVTag};
use std::collections::HashSet;

#[test]
fn test_stripping() {
    assert_eq!(strip_html("test"), "test");
    assert_eq!(strip_html("t<b>e</b>st"), "test");
    assert_eq!(strip_html("so<SCRIPT>t<b>e</b>st</script>me"), "some");

    assert_eq!(
        strip_html_preserving_image_filenames("<img src=foo.jpg>"),
        " foo.jpg "
    );
    assert_eq!(
        strip_html_preserving_image_filenames("<img src='foo.jpg'><html>"),
        " foo.jpg "
    );
    assert_eq!(strip_html_preserving_image_filenames("<html>"), "");
}

#[test]
fn test_cloze() {
    assert_eq!(
        cloze_numbers_in_string("test"),
        vec![].into_iter().collect::<HashSet<u16>>()
    );
    assert_eq!(
        cloze_numbers_in_string("{{c2::te}}{{c1::s}}t{{"),
        vec![1, 2].into_iter().collect::<HashSet<u16>>()
    );
}

#[test]
fn test_audio() {
    let s =
        "abc[sound:fo&amp;o.mp3]def[anki:tts][en_US voices=Bob,Jane]foo<br>1&gt;2[/anki:tts]gh";
    assert_eq!(strip_av_tags(s), "abcdefgh");
    assert_eq!(
        av_tags_in_string(s),
        vec![
            AVTag::SoundOrVideo("fo&o.mp3".into()),
            AVTag::TextToSpeech {
                field_text: "foo 1>2".into(),
                lang: "en_US".into(),
                voices: vec!["Bob".to_string(), "Jane".to_string()],
                other_args: vec![]
            },
        ]
    );

    assert_eq!(
        flag_av_tags(s),
        "abc[anki:play]0[/anki:play]def[anki:play]1[/anki:play]gh"
    );
}

#[test]
fn decode_identity_without_ampersand() {
    assert_eq!(decode_entities("plain text, no entities"), "plain text, no entities");
    assert_eq!(decode_entities(""), "");
}

#[test]
fn decode_named_and_numeric_entities() {
    assert_eq!(decode_entities("&amp;"), "&");
    assert_eq!(decode_entities("a&lt;b&gt;c"), "a<b>c");
    assert_eq!(decode_entities("&#65;&#x42;"), "AB");
}

#[test]
fn decode_malformed_entity_degrades_to_placeholder() {
    let out = decode_entities("&nosuchentity;");
    assert_ne!(out, "&nosuchentity;");
    assert!(!out.is_empty());
}

#[test]
fn strip_html_comments_and_blocks() {
    assert_eq!(strip_html("a<!-- hidden -->b"), "ab");
    assert_eq!(strip_html("a<style>p { color: red }</style>b"), "ab");
    assert_eq!(strip_html("a<STYLE>x</STYLE>b"), "ab");
    assert_eq!(strip_html("keep a<b alone"), "keep a<b alone");
    assert_eq!(strip_html("<style>no close"), "no close");
}

#[test]
fn strip_html_twice_equals_once() {
    let cases = ["t<b>e</b>st", "a<!--x-->b", "<<b>>", "a<b", "plain"];
    for t in cases {
        let once = strip_html(t);
        assert_eq!(strip_html(&once), once);
    }
}

#[test]
fn strip_html_no_tags_is_identity() {
    assert_eq!(strip_html("no tags here > honest"), "no tags here > honest");
}

#[test]
fn image_filenames_last_src_wins() {
    assert_eq!(
        strip_html_preserving_image_filenames("<img src=a.jpg src=b.jpg>"),
        " b.jpg "
    );
}

#[test]
fn image_filenames_double_quoted() {
    assert_eq!(
        strip_html_preserving_image_filenames(r#"x<img alt="y" src="foo.jpg">z"#),
        "x foo.jpg z"
    );
}

#[test]
fn tts_args_last_voices_wins() {
    let tag = tts_tag_from_string("x", "en voices=A voices=B,C rate");
    assert_eq!(
        tag,
        AVTag::TextToSpeech {
            field_text: "x".into(),
            lang: "en".into(),
            voices: vec!["B".to_string(), "C".to_string()],
            other_args: vec!["rate".to_string()],
        }
    );
}

#[test]
fn tts_args_empty_string() {
    let tag = tts_tag_from_string("", "");
    assert_eq!(
        tag,
        AVTag::TextToSpeech {
            field_text: "".into(),
            lang: "".into(),
            voices: vec![],
            other_args: vec![],
        }
    );
}

#[test]
fn tts_args_rebuild_token_multiset() {
    let tag = tts_tag_from_string("x", "en voices=A,B q r");
    match tag {
        AVTag::TextToSpeech { voices, other_args, lang, .. } => {
            assert_eq!(lang, "en");
            let rebuilt = format!("voices={}", voices.join(","));
            assert_eq!(rebuilt, "voices=A,B");
            assert_eq!(other_args, vec!["q".to_string(), "r".to_string()]);
        }
        _ => panic!("expected a TTS tag"),
    }
}

#[test]
fn cloze_number_edge_cases() {
    assert_eq!(
        cloze_numbers_in_string("{{c65535::x}}{{c007::y}}"),
        vec![65535, 7].into_iter().collect::<HashSet<u16>>()
    );
    // out of 16-bit range: silently skipped
    assert_eq!(
        cloze_numbers_in_string("{{c65536::x}}"),
        vec![].into_iter().collect::<HashSet<u16>>()
    );
    // duplicate numbers collapse
    assert_eq!(
        cloze_numbers_in_string("{{c1::a}}{{c1::b}}"),
        vec![1].into_iter().collect::<HashSet<u16>>()
    );
    // malformed markers match nothing
    assert_eq!(
        cloze_numbers_in_string("{{c::a}} {{c1:a}} {{c1::}}"),
        vec![].into_iter().collect::<HashSet<u16>>()
    );
}

#[test]
fn cloze_content_spans_newlines() {
    assert_eq!(
        cloze_numbers_in_string("{{c3::line\nbreak}}"),
        vec![3].into_iter().collect::<HashSet<u16>>()
    );
}

#[test]
fn strip_for_tts_inserts_spaces_and_decodes() {
    assert_eq!(strip_html_for_tts("a<b>b</b>c"), "a b c");
    assert_eq!(strip_html_for_tts("1&lt;2"), "1<2");
    assert_eq!(strip_html_for_tts("plain"), "plain");
}

#[test]
fn flag_av_tags_two_digit_indices() {
    let mut input = String::new();
    let mut expected = String::new();
    for i in 0..11 {
        input.push_str("[sound:a.mp3]");
        expected.push_str(&format!("[anki:play]{}[/anki:play]", i));
    }
    assert_eq!(flag_av_tags(&input), expected);
}

#[test]
fn av_tags_malformed_left_untouched() {
    assert_eq!(strip_av_tags("[sound:no close"), "[sound:no close");
    assert_eq!(strip_av_tags("[anki:tts][en]no close"), "[anki:tts][en]no close");
    assert_eq!(flag_av_tags("nothing here"), "nothing here");
    assert_eq!(av_tags_in_string("nothing here"), vec![]);
}

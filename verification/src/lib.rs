//! Sanitising and directive extraction for flashcard field text: stripping
//! HTML markup, decoding entities, parsing `[sound:...]` / `[anki:tts]`
//! directives and collecting cloze-deletion numbers.

pub mod av;
pub mod cloze;
pub mod entities;
pub mod html;
pub mod scan;

pub use av::{AVTag, AvTagModel, av_tags_in_string, av_tags_in_string_spec, flag_av_tags,
    flag_av_tags_spec, lemma_tts_args_round_trip, strip_av_tags, strip_av_tags_spec,
    tts_tag_from_string, tts_model};
pub use cloze::{cloze_numbers_in_string, cloze_numbers_spec};
pub use entities::{decode_entities, decode_entities_spec, decoded_entities,
    lemma_decode_entities_no_amp};
pub use html::{lemma_strip_html_idempotent, lemma_strip_html_no_tags, strip_html,
    strip_html_for_tts, strip_html_for_tts_spec, strip_html_preserving_image_filenames,
    strip_html_preserving_image_filenames_spec, strip_html_spec};

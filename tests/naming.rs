use podcast_fetch::naming::derive_filename;
use podcast_fetch::text::{contains_text, same_text};

#[test]
fn filename_takes_second_field() {
    assert_eq!(derive_filename("Label, real_file.mp3"), Some("real_file.mp3".to_string()));
}

#[test]
fn filename_without_separator_uses_whole_name() {
    assert_eq!(derive_filename("my episode.mp3"), Some("my_episode.mp3".to_string()));
    assert_eq!(derive_filename("plain.mp3"), Some("plain.mp3".to_string()));
}

#[test]
fn filename_ignores_third_field() {
    assert_eq!(derive_filename("A, b c.mp3 ,rest"), Some("b_c.mp3".to_string()));
}

#[test]
fn filename_turns_inner_blanks_into_underscores() {
    assert_eq!(derive_filename("Show,  a\tb  c.mp3  "), Some("a_b__c.mp3".to_string()));
}

#[test]
fn filename_none_when_nothing_is_left() {
    assert_eq!(derive_filename(""), None);
    assert_eq!(derive_filename("Label,   "), None);
    assert_eq!(derive_filename("Label,"), None);
    assert_eq!(derive_filename("   "), Some("___".to_string()));
}

#[test]
fn substring_search() {
    assert!(contains_text("//x/audio-nondrm-download-low/a.mp3", "audio-nondrm-download-low"));
    assert!(!contains_text("//x/audio-nondrm-download/a.mp3", "audio-nondrm-download-low"));
    assert!(contains_text("abc", ""));
    assert!(!contains_text("ab", "abc"));
    assert!(contains_text("abc", "abc"));
}

#[test]
fn text_equality() {
    assert!(same_text("héllo", "héllo"));
    assert!(!same_text("abc", "abd"));
    assert!(!same_text("abc", "ab"));
}

#[test]
fn filename_normalises_every_whitespace() {
    assert_eq!(derive_filename("Show, a\u{c}b.mp3"), Some("a_b.mp3".to_string()));
    assert_eq!(derive_filename("Show, a\u{a0}b.mp3"), Some("a_b.mp3".to_string()));
    assert_eq!(derive_filename("a\u{b}b\u{3000}c.mp3"), Some("a_b_c.mp3".to_string()));
}

#[test]
fn filename_trims_only_the_second_field() {
    assert_eq!(derive_filename("Show,\u{c}\u{a0}a.mp3\u{a0}\u{c}"), Some("a.mp3".to_string()));
    assert_eq!(derive_filename("\u{a0}a.mp3\u{c}"), Some("_a.mp3_".to_string()));
    assert_eq!(derive_filename(" a.mp3"), Some("_a.mp3".to_string()));
    assert_eq!(derive_filename("Show,\u{c}\u{a0}"), None);
}

#[test]
fn derived_names_hold_no_whitespace() {
    for name in ["Show, x\u{2028}y\u{85}z.mp3", "p\u{1680}q\u{205f}r", "Label, real_file.mp3"] {
        let f = derive_filename(name).unwrap();
        assert!(!f.is_empty());
        assert!(!f.chars().any(char::is_whitespace));
    }
}

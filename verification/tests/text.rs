use pdf_android::annotations::{accepts_ink_sample, PenMode, ToolKind, DEFAULT_INK_COLOR};
use pdf_android::text::{
    mode_badge_rect, page_label, search_summary, wrap_text, wrap_text_chars,
};

#[test]
fn wrap_text_fills_lines() {
    assert_eq!(wrap_text("the quick brown fox", 10), vec!["the quick", "brown fox"]);
    assert_eq!(wrap_text("a b c", 3), vec!["a b", "c"]);
}

#[test]
fn wrap_text_cuts_long_words() {
    assert_eq!(wrap_text("ab abcdefgh cd", 3), vec!["ab", "abc", "def", "gh", "cd"]);
    assert_eq!(wrap_text("abcdef", 3), vec!["abc", "def"]);
}

#[test]
fn wrap_text_keeps_paragraphs_and_blank_lines() {
    assert_eq!(wrap_text("one\n\ntwo", 10), vec!["one", "", "two"]);
    assert_eq!(wrap_text("  \nx", 10), vec!["", "x"]);
    assert_eq!(wrap_text("", 5), vec![""]);
}

#[test]
fn wrap_text_counts_characters_not_bytes() {
    assert_eq!(wrap_text("ñandú ñu", 5), vec!["ñandú", "ñu"]);
}

#[test]
fn wrap_text_lines_never_exceed_the_limit() {
    let text = "Lorem ipsum dolor sit amet, consectetur adipiscing elit, sed do eiusmod\n\
                tempor incididunt ut labore et dolore magna aliqua supercalifragilistic";
    for max in 1..20 {
        for line in wrap_text(text, max) {
            assert!(line.chars().count() <= max, "{line:?} > {max}");
        }
    }
}

#[test]
fn wrap_text_chars_fills_by_words() {
    assert_eq!(wrap_text_chars("  alpha   beta gamma ", 10), vec!["alpha beta", "gamma"]);
    assert_eq!(wrap_text_chars("x\n \ny", 4), vec!["x", "", "y"]);
    assert_eq!(wrap_text_chars("averyverylongword ok", 5), vec!["averyverylongword", "ok"]);
    assert_eq!(wrap_text_chars("a\tb", 5), vec!["a b"]);
}

#[test]
fn summary_prefers_query() {
    assert_eq!(search_summary("Download", Some('M'), Some("x/")), ("Download".to_string(), true));
}

#[test]
fn summary_joins_letter_and_folder() {
    assert_eq!(search_summary("", Some('M'), None), ("M".to_string(), true));
    assert_eq!(search_summary("", None, Some("Download//")), ("Download".to_string(), true));
    assert_eq!(
        search_summary("", Some('M'), Some("Download/")),
        ("M \u{b7} Download".to_string(), true)
    );
    assert_eq!(search_summary("", None, None), (String::new(), false));
}

#[test]
fn pen_mode_labels() {
    assert_eq!(PenMode::Ink.label(), "✏️ Pen");
    assert_eq!(PenMode::Highlight.label(), "🖍️ Highlighter");
}

#[test]
fn page_label_counts_from_one() {
    assert_eq!(page_label(0, 12), "1 / 12");
    assert_eq!(page_label(99, 100), "100 / 100");
}

#[test]
fn mode_badge_rect_values() {
    assert_eq!(mode_badge_rect(1080, 2400), (1080 - 56 - 11, 2400 - 40 - 11, 1069, 2389));
    assert_eq!(mode_badge_rect(300, 600), (300 - 56 - 8, 600 - 30 - 8, 292, 592));
    assert_eq!(mode_badge_rect(-100, -120), (-164, -158, -108, -128));
}

#[test]
fn ink_samples_must_be_strictly_newer() {
    assert!(accepts_ink_sample(None, 0));
    assert!(!accepts_ink_sample(Some(100), 100));
    assert!(!accepts_ink_sample(Some(100), 99));
    assert!(accepts_ink_sample(Some(100), 101));
}

#[test]
fn default_ink_and_tools() {
    assert_eq!(DEFAULT_INK_COLOR, [28, 32, 43, 255]);
    assert_ne!(ToolKind::Ink, ToolKind::Highlight);
}

use gits::heading::{colorize, fence_line, fence_text, fence_width, heading_for, use_color};
use gits::heading::{ColorMode, HeadingStyle};

#[test]
fn relative_heading_of_root_is_current_directory_indicator() {
    let h = heading_for(&"/w/repo".to_string(), &"/w/repo".to_string(), false, None);
    assert_eq!(h, "./");
}

#[test]
fn relative_heading_of_descendant_ends_with_separator() {
    let h = heading_for(&"/w/b/c".to_string(), &"/w".to_string(), false, None);
    assert_eq!(h, "b/c/");
}

#[test]
fn relative_heading_of_sibling_climbs() {
    let h = heading_for(&"/w/a".to_string(), &"/w/b".to_string(), false, None);
    assert_eq!(h, "../a/");
}

#[test]
fn absolute_heading_uses_canonical_form_when_given() {
    let h = heading_for(
        &"w/repo".to_string(),
        &"w".to_string(),
        true,
        Some("/real/w/repo".to_string()),
    );
    assert_eq!(h, "/real/w/repo/");
}

#[test]
fn absolute_heading_falls_back_to_raw_path() {
    let h = heading_for(&"w/repo".to_string(), &"w".to_string(), true, None);
    assert_eq!(h, "w/repo/");
}

#[test]
fn colorize_wraps_in_ansi_escapes_only_when_asked() {
    assert_eq!(colorize("label", true), "\x1b[1;36mlabel\x1b[0m");
    assert_eq!(colorize("label", false), "label");
}

#[test]
fn color_mode_resolution() {
    assert!(use_color(ColorMode::Always, false, true));
    assert!(!use_color(ColorMode::Never, true, false));
    assert!(use_color(ColorMode::Auto, true, false));
    assert!(!use_color(ColorMode::Auto, true, true));
    assert!(!use_color(ColorMode::Auto, false, false));
}

#[test]
fn fence_width_is_clamped_with_default() {
    assert_eq!(fence_width(None), 80);
    assert_eq!(fence_width(Some(10)), 20);
    assert_eq!(fence_width(Some(120)), 120);
    assert_eq!(fence_width(Some(500)), 200);
}

#[test]
fn fence_line_is_a_run_of_dashes() {
    assert_eq!(fence_line(4, false), "----");
    assert_eq!(fence_line(3, true), "\x1b[1;36m---\x1b[0m");
}

#[test]
fn fence_text_only_in_ruled_style() {
    assert!(fence_text(HeadingStyle::Plain, false).is_none());
    let rule = fence_text(HeadingStyle::Rule, false).unwrap();
    assert!(20 <= rule.len() && rule.len() <= 200);
    assert!(rule.chars().all(|c| c == '-'));
}

use cship::ansi::{
    apply_style, display_width, escalate_style, parse_color, strip_ansi, style_with_word,
    StyleSpec, ColorSpec,
};

/// The threshold adapter: a threshold is reached when both it and the value are set
/// and the value is at least the threshold.
fn reached(value: Option<f64>, threshold: Option<f64>) -> bool {
    matches!((value, threshold), (Some(v), Some(t)) if v >= t)
}

fn resolve_threshold_style<'a>(
    value: Option<f64>,
    style: Option<&'a str>,
    warn_threshold: Option<f64>,
    warn_style: Option<&'a str>,
    critical_threshold: Option<f64>,
    critical_style: Option<&'a str>,
) -> Option<&'a str> {
    escalate_style(
        style,
        reached(value, warn_threshold),
        warn_style,
        reached(value, critical_threshold),
        critical_style,
    )
}

fn apply_style_with_threshold(
    content: &str,
    value: Option<f64>,
    style: Option<&str>,
    warn_threshold: Option<f64>,
    warn_style: Option<&str>,
    critical_threshold: Option<f64>,
    critical_style: Option<&str>,
) -> String {
    let chosen = resolve_threshold_style(
        value,
        style,
        warn_threshold,
        warn_style,
        critical_threshold,
        critical_style,
    );
    apply_style(content, chosen)
}

#[test]
fn test_no_style_returns_plain_text() {
    assert_eq!(apply_style("Opus", None), "Opus");
}

#[test]
fn test_display_width_ascii() {
    assert_eq!(display_width("abc"), 3);
    assert_eq!(display_width(""), 0);
}

#[test]
fn test_display_width_emoji_is_two() {
    assert_eq!(display_width("💰"), 2);
}

#[test]
fn test_display_width_ignores_ansi() {
    let styled = apply_style("x", Some("bold red"));
    assert!(styled.contains('\x1b'), "precondition: has ANSI");
    assert_eq!(display_width(&styled), 1);
}

#[test]
fn test_empty_style_returns_plain_text() {
    assert_eq!(apply_style("Opus", Some("")), "Opus");
}

#[test]
fn test_bold_green_style_contains_ansi_codes() {
    let result = apply_style("Opus", Some("bold green"));
    assert!(result.contains('\x1b'), "expected ANSI escape in: {result:?}");
    assert!(result.contains("Opus"), "expected 'Opus' in: {result:?}");
}

#[test]
fn test_unknown_style_tokens_ignored_content_preserved() {
    let result = apply_style("Opus", Some("nonexistent_color"));
    assert!(result.contains("Opus"));
}

#[test]
fn test_fg_prefix_applies_foreground_color() {
    let result = apply_style("text", Some("fg:red"));
    assert!(result.contains('\x1b'), "expected ANSI in: {result:?}");
}

#[test]
fn test_bg_prefix_applies_background_color() {
    let result = apply_style("text", Some("bg:blue"));
    assert!(result.contains('\x1b'), "expected ANSI in: {result:?}");
}

#[test]
fn test_threshold_below_warn_uses_base_style() {
    let result = apply_style_with_threshold(
        "$3.00",
        Some(3.0),
        None,
        Some(5.0),
        Some("yellow"),
        Some(10.0),
        Some("red"),
    );
    assert_eq!(result, "$3.00");
}

#[test]
fn test_threshold_above_warn_uses_warn_style() {
    let result = apply_style_with_threshold(
        "$6.00",
        Some(6.0),
        None,
        Some(5.0),
        Some("yellow"),
        Some(10.0),
        Some("red"),
    );
    assert!(result.contains('\x1b'), "expected ANSI codes for warn: {result:?}");
}

#[test]
fn test_threshold_above_critical_uses_critical_style() {
    let result = apply_style_with_threshold(
        "$12.00",
        Some(12.0),
        None,
        Some(5.0),
        Some("yellow"),
        Some(10.0),
        Some("bold red"),
    );
    assert!(result.contains('\x1b'), "expected ANSI codes for critical: {result:?}");
}

#[test]
fn test_threshold_no_thresholds_uses_base() {
    let result =
        apply_style_with_threshold("text", Some(100.0), Some("green"), None, None, None, None);
    assert!(result.contains('\x1b'), "expected base style ANSI");
}

#[test]
fn test_resolve_threshold_below_warn_returns_base() {
    let result = resolve_threshold_style(
        Some(3.0),
        Some("green"),
        Some(5.0),
        Some("yellow"),
        Some(10.0),
        Some("red"),
    );
    assert_eq!(result, Some("green"));
}

#[test]
fn test_resolve_threshold_above_warn_returns_warn() {
    let result = resolve_threshold_style(
        Some(6.0),
        Some("green"),
        Some(5.0),
        Some("yellow"),
        Some(10.0),
        Some("red"),
    );
    assert_eq!(result, Some("yellow"));
}

#[test]
fn test_resolve_threshold_above_critical_returns_critical() {
    let result = resolve_threshold_style(
        Some(12.0),
        Some("green"),
        Some(5.0),
        Some("yellow"),
        Some(10.0),
        Some("red"),
    );
    assert_eq!(result, Some("red"));
}

#[test]
fn test_resolve_threshold_value_none_returns_base() {
    let result = resolve_threshold_style(
        None,
        Some("green"),
        Some(5.0),
        Some("yellow"),
        Some(10.0),
        Some("red"),
    );
    assert_eq!(result, Some("green"));
}

#[test]
fn test_resolve_threshold_no_thresholds_returns_base() {
    let result = resolve_threshold_style(Some(100.0), Some("green"), None, None, None, None);
    assert_eq!(result, Some("green"));
}

#[test]
fn test_resolve_threshold_warn_style_none_falls_through_to_base() {
    let result = resolve_threshold_style(Some(6.0), Some("green"), Some(5.0), None, None, None);
    assert_eq!(result, Some("green"));
}

#[test]
fn test_resolve_threshold_at_exact_boundary_triggers() {
    let result = resolve_threshold_style(
        Some(5.0),
        Some("green"),
        Some(5.0),
        Some("yellow"),
        Some(10.0),
        Some("red"),
    );
    assert_eq!(result, Some("yellow"));
}

#[test]
fn test_hex_6digit_fg_applies_rgb() {
    let result = apply_style("text", Some("fg:#c3e88d"));
    assert!(result.contains("38;2;195;232;141"), "expected 24-bit RGB 195,232,141 in: {result:?}");
    assert!(result.contains("text"), "content preserved: {result:?}");
}

#[test]
fn test_hex_3digit_expands_to_rgb() {
    let result = apply_style("text", Some("fg:#fff"));
    assert!(result.contains("38;2;255;255;255"), "expected 24-bit RGB 255,255,255 in: {result:?}");
    assert!(result.contains("text"), "content preserved: {result:?}");
}

#[test]
fn test_hex_3digit_mid_value_expands_correctly() {
    let result = apply_style("text", Some("fg:#80f"));
    assert!(result.contains("38;2;136;0;255"), "expected 24-bit RGB 136,0,255 in: {result:?}");
}

#[test]
fn test_256_palette_index_fixed() {
    let result = apply_style("text", Some("fg:220"));
    assert!(result.contains("38;5;220"), "expected 256-color index 220 in: {result:?}");
    assert!(result.contains("text"), "content preserved: {result:?}");
}

#[test]
fn test_256_palette_index_zero() {
    let result = apply_style("text", Some("fg:0"));
    assert!(result.contains("38;5;0"), "expected 256-color index 0 in: {result:?}");
}

#[test]
fn test_256_palette_index_max() {
    let result = apply_style("text", Some("fg:255"));
    assert!(result.contains("38;5;255"), "expected 256-color index 255 in: {result:?}");
}

#[test]
fn test_hex_bg_applies_background() {
    let result = apply_style("text", Some("bg:#1e1e2e"));
    assert!(result.contains("48;2;30;30;46"), "expected 24-bit bg RGB 30,30,46 in: {result:?}");
    assert!(result.contains("text"), "content preserved: {result:?}");
}

#[test]
fn test_unknown_color_token_silent_ignore_regression() {
    let result = apply_style("text", Some("fg:notacolor"));
    assert!(!result.contains('\x1b'), "unexpected ANSI in: {result:?}");
    assert_eq!(result, "text");
}

#[test]
fn test_hex_3digit_invalid_chars_ignored() {
    let result = apply_style("text", Some("fg:#xyz"));
    assert!(!result.contains('\x1b'), "unexpected ANSI for #xyz: {result:?}");
    assert_eq!(result, "text");
}

#[test]
fn test_numeric_out_of_u8_range_ignored() {
    let result = apply_style("text", Some("fg:256"));
    assert!(!result.contains('\x1b'), "unexpected ANSI for 256: {result:?}");
    assert_eq!(result, "text");
}

// --- further cases ---

#[test]
fn strip_ansi_removes_csi_sequences() {
    assert_eq!(strip_ansi("\x1b[1;32mOpus\x1b[0m"), "Opus");
    assert_eq!(strip_ansi("a\x1bb"), "ab");
    assert_eq!(strip_ansi("a\x1b[12"), "a");
    assert_eq!(strip_ansi("plain"), "plain");
}

#[test]
fn strip_ansi_is_idempotent_on_example() {
    let s = "\x1b[31mred\x1b[0m and \x1b[1mbold\x1b[0m";
    assert_eq!(strip_ansi(&strip_ansi(s)), strip_ansi(s));
}

#[test]
fn style_words_are_case_insensitive_and_whitespace_separated() {
    assert_eq!(apply_style("x", Some("BOLD\tRED")), apply_style("x", Some("bold red")));
    assert_eq!(apply_style("x", Some("bold red")), "\x1b[1;31mx\x1b[0m");
}

#[test]
fn blank_style_is_plain() {
    assert_eq!(apply_style("x", Some(" \t ")), "x");
}

#[test]
fn attributes_and_colors_combine() {
    assert_eq!(apply_style("x", Some("italic underline fg:blue bg:#000")), "\x1b[3;4;48;2;0;0;0;34mx\x1b[0m");
    assert_eq!(apply_style("x", Some("magenta")), apply_style("x", Some("purple")));
}

#[test]
fn plus_sign_is_no_number() {
    assert_eq!(apply_style("x", Some("fg:+7")), "x");
    assert_eq!(apply_style("x", Some("fg:#+f+f+f")), "x");
    assert_eq!(apply_style("x", Some("fg:+")), "x");
    assert_eq!(apply_style("x", Some("fg:-1")), "x");
    assert!(apply_style("x", Some("fg:007")).contains("38;5;7"));
}

#[test]
fn later_color_overrides_earlier() {
    assert_eq!(apply_style("x", Some("red green")), apply_style("x", Some("green")));
}

#[test]
fn non_ascii_colour_names_are_ignored() {
    assert_eq!(apply_style("x", Some("fg:#aé123")), "x");
    assert_eq!(apply_style("x", Some("fg:#éé12")), "x");
    assert_eq!(apply_style("x", Some("bold fg:#aé123")), apply_style("x", Some("bold")));
}

#[test]
fn style_with_word_reads_lowercased_words() {
    let word = |w: &str| w.chars().collect::<Vec<char>>();
    let plain = StyleSpec::plain();
    let bold = style_with_word(plain, &word("bold"));
    assert!(bold.is_bold);
    let bg = style_with_word(bold, &word("bg:#1e1e2e"));
    assert_eq!(bg.background, Some(ColorSpec::Rgb(30, 30, 46)));
    assert!(bg.is_bold);
    assert_eq!(style_with_word(plain, &word("fg:220")).foreground, Some(ColorSpec::Fixed(220)));
    assert_eq!(style_with_word(plain, &word("magenta")).foreground, Some(ColorSpec::Purple));
    assert_eq!(style_with_word(plain, &word("BOLD")), plain);
    assert_eq!(style_with_word(plain, &word("fg:256")), plain);
}

#[test]
fn short_hex_doubles_each_digit() {
    assert_eq!(apply_style("x", Some("fg:#abc")), apply_style("x", Some("fg:#aabbcc")));
}

#[test]
fn stripped_text_is_a_subsequence() {
    let s = "a\x1b[1mb\x1bc\x1b[0md";
    let plain = strip_ansi(s);
    assert_eq!(plain, "abcd");
    let mut rest = s.chars();
    assert!(plain.chars().all(|c| rest.any(|d| d == c)));
}

#[test]
fn escalation_prefers_critical_then_warn() {
    assert_eq!(escalate_style(Some("a"), true, Some("w"), true, Some("c")), Some("c"));
    assert_eq!(escalate_style(Some("a"), true, Some("w"), true, None), Some("w"));
    assert_eq!(escalate_style(Some("a"), false, Some("w"), false, Some("c")), Some("a"));
    assert_eq!(escalate_style(None, false, None, true, None), None);
}

#[test]
fn display_width_of_wide_and_combining_text() {
    assert_eq!(display_width("日本"), 4);
    assert_eq!(display_width("\x1b[1m日本\x1b[0m"), 4);
}

fn color_of_text(text: &str) -> Option<ColorSpec> {
    let cs: Vec<char> = text.chars().collect();
    parse_color(&cs, 0, cs.len())
}

#[test]
fn short_hex_colour_doubles_each_digit() {
    assert_eq!(color_of_text("#abc"), Some(ColorSpec::Rgb(170, 187, 204)));
    assert_eq!(color_of_text("#abc"), color_of_text("#aabbcc"));
    assert_eq!(color_of_text("#0F9"), Some(ColorSpec::Rgb(0, 255, 153)));
    assert_eq!(color_of_text("#0F9"), color_of_text("#00FF99"));
}

#[test]
fn colour_names_hex_and_palette_indices() {
    assert_eq!(color_of_text("magenta"), Some(ColorSpec::Purple));
    assert_eq!(color_of_text("#c3e88d"), Some(ColorSpec::Rgb(195, 232, 141)));
    assert_eq!(color_of_text("255"), Some(ColorSpec::Fixed(255)));
    assert_eq!(color_of_text("256"), None);
    assert_eq!(color_of_text("#12345"), None);
    assert_eq!(color_of_text("#ggg"), None);
    assert_eq!(color_of_text(""), None);
    let cs: Vec<char> = "fg:#abc".chars().collect();
    assert_eq!(parse_color(&cs, 3, cs.len()), Some(ColorSpec::Rgb(170, 187, 204)));
}

#[test]
fn escape_only_text_is_zero_columns_wide() {
    assert_eq!(display_width("\x1b[1;31m\x1b[0m"), 0);
}

use cship::config::{CshipConfig, FillConfig};
use cship::renderer::{
    build_filled_line, distribute, effective_lines, fill_appearance, needs_terminal_width,
    parse_line, render, render_line, try_render, try_render_line, Piece, Token,
};

/// Answers as the default context gives them: no module renders anything.
fn nothing_rendered(lines: &[String], cfg: &CshipConfig) -> Vec<Vec<Option<String>>> {
    effective_lines(lines, cfg).iter().map(|l| vec![None; parse_line(l).len()]).collect()
}

#[test]
fn test_parse_line_classifies_cship_as_native() {
    let tokens = parse_line("$cship.model");
    assert!(matches!(tokens[0], Token::Native(ref n) if n == "cship.model"));
}

#[test]
fn test_parse_line_classifies_other_as_passthrough() {
    let tokens = parse_line("$git_branch");
    assert!(matches!(tokens[0], Token::Passthrough(ref n) if n == "git_branch"));
}

#[test]
fn test_parse_line_literal_text_produces_literal_token() {
    let tokens = parse_line("literal text without dollar");
    assert_eq!(tokens.len(), 1);
    assert!(matches!(tokens[0], Token::Literal(ref t) if t == "literal text without dollar"));
}

#[test]
fn test_parse_line_preserves_prefix_literal() {
    let tokens = parse_line("in: $cship.context_window.total_input_tokens");
    assert_eq!(tokens.len(), 2);
    assert!(matches!(tokens[0], Token::Literal(ref t) if t == "in: "));
    assert!(
        matches!(tokens[1], Token::Native(ref n) if n == "cship.context_window.total_input_tokens")
    );
}

#[test]
fn test_parse_line_styled_span_with_content() {
    let tokens = parse_line("[text](bold green)");
    assert_eq!(tokens.len(), 1);
    assert!(
        matches!(&tokens[0], Token::StyledSpan { content, style } if content == "text" && style == "bold green")
    );
}

#[test]
fn test_parse_line_empty_styled_span() {
    let tokens = parse_line("[](fg:#3d414a bg:#5f6366)");
    assert_eq!(tokens.len(), 1);
    assert!(
        matches!(&tokens[0], Token::StyledSpan { content, style } if content.is_empty() && style == "fg:#3d414a bg:#5f6366")
    );
}

#[test]
fn test_parse_line_unclosed_bracket_literal() {
    let tokens = parse_line("[note:");
    assert_eq!(tokens.len(), 2);
    assert!(matches!(&tokens[0], Token::Literal(t) if t == "["));
    assert!(matches!(&tokens[1], Token::Literal(t) if t == "note:"));
}

#[test]
fn test_parse_line_mixed_span_and_native() {
    let tokens = parse_line("[bold](bold) $cship.model");
    assert_eq!(tokens.len(), 3);
    assert!(
        matches!(&tokens[0], Token::StyledSpan { content, style } if content == "bold" && style == "bold")
    );
    assert!(matches!(&tokens[1], Token::Literal(t) if t == " "));
    assert!(matches!(&tokens[2], Token::Native(n) if n == "cship.model"));
}

#[test]
fn test_parse_line_spaces_styled_span() {
    let tokens = parse_line("[  ](fg:#ffc878)");
    assert_eq!(tokens.len(), 1);
    assert!(
        matches!(&tokens[0], Token::StyledSpan { content, style } if content == "  " && style == "fg:#ffc878")
    );
}

#[test]
fn test_parse_line_styled_span_after_literal_text() {
    let tokens = parse_line("prefix [text](bold green)");
    assert_eq!(tokens.len(), 2);
    assert!(matches!(&tokens[0], Token::Literal(t) if t == "prefix "));
    assert!(
        matches!(&tokens[1], Token::StyledSpan { content, style } if content == "text" && style == "bold green")
    );
}

#[test]
fn test_parse_line_styled_span_adjacent_to_token_no_space() {
    let tokens = parse_line("$cship.model[sep](fg:red)");
    assert_eq!(tokens.len(), 2);
    assert!(matches!(&tokens[0], Token::Native(n) if n == "cship.model"));
    assert!(
        matches!(&tokens[1], Token::StyledSpan { content, style } if content == "sep" && style == "fg:red")
    );
}

#[test]
fn test_parse_line_styled_span_after_native_token() {
    let tokens = parse_line("$cship.model [sep](fg:red) $cship.cost");
    assert_eq!(tokens.len(), 5);
    assert!(matches!(&tokens[0], Token::Native(n) if n == "cship.model"));
    assert!(matches!(&tokens[1], Token::Literal(t) if t == " "));
    assert!(
        matches!(&tokens[2], Token::StyledSpan { content, style } if content == "sep" && style == "fg:red")
    );
    assert!(matches!(&tokens[3], Token::Literal(t) if t == " "));
    assert!(matches!(&tokens[4], Token::Native(n) if n == "cship.cost"));
}

#[test]
fn test_render_empty_lines_is_empty() {
    let cfg = CshipConfig::default();
    let resolved = nothing_rendered(&[], &cfg);
    let result = render(&[], &cfg, &resolved, None);
    assert_eq!(result, "");
}

#[test]
fn test_render_two_empty_lines_filtered_to_empty() {
    // With the default context the model module renders nothing on either line.
    let cfg = CshipConfig::default();
    let lines = vec!["$cship.model".to_string(), "$cship.model".to_string()];
    let resolved = nothing_rendered(&lines, &cfg);
    let result = render(&lines, &cfg, &resolved, None);
    assert_eq!(result, "");
}

#[test]
fn test_render_line_literal_and_native_concatenated_without_extra_space() {
    // The context window module renders the 15234 input tokens as "15234".
    let cfg = CshipConfig::default();
    let resolved = vec![None, Some("15234".to_string())];
    let result = render_line("in: $cship.context_window.total_input_tokens", &resolved, &cfg, None);
    assert_eq!(result, "in: 15234");
}

#[test]
fn test_render_format_field_line_break() {
    let cfg = CshipConfig { format: Some("line1$line_breakline2".to_string()), ..Default::default() };
    let resolved = nothing_rendered(&[], &cfg);
    let result = render(&[], &cfg, &resolved, None);
    assert_eq!(result, "line1\nline2");
}

#[test]
fn test_render_format_takes_priority_over_lines() {
    let cfg = CshipConfig {
        format: Some("from_format".to_string()),
        lines: Some(vec!["from_lines".to_string()]),
        ..Default::default()
    };
    let lines = cfg.lines.as_deref().unwrap_or(&[]);
    let resolved = nothing_rendered(lines, &cfg);
    let result = render(lines, &cfg, &resolved, None);
    assert_eq!(result, "from_format");
}

#[test]
fn test_render_lines_unchanged_when_no_format() {
    let cfg = CshipConfig { lines: Some(vec!["hello".to_string()]), ..Default::default() };
    let lines = cfg.lines.as_deref().unwrap_or(&[]);
    let resolved = nothing_rendered(lines, &cfg);
    let result = render(lines, &cfg, &resolved, None);
    assert_eq!(result, "hello");
}

#[test]
fn test_parse_line_fill_token() {
    assert!(matches!(parse_line("$fill").as_slice(), [Token::Fill]));
    let toks = parse_line("a $fill b");
    assert_eq!(toks.len(), 3);
    assert!(matches!(toks[0], Token::Literal(ref t) if t == "a "));
    assert!(matches!(toks[1], Token::Fill));
    assert!(matches!(toks[2], Token::Literal(ref t) if t == " b"));
}

#[test]
fn test_distribute_single_fill_gets_all() {
    assert_eq!(distribute(10, 1), vec![10]);
}

#[test]
fn test_distribute_even_split() {
    assert_eq!(distribute(10, 2), vec![5, 5]);
}

#[test]
fn test_distribute_remainder_goes_to_earlier_fills() {
    assert_eq!(distribute(11, 2), vec![6, 5]);
    assert_eq!(distribute(9, 2), vec![5, 4]);
}

#[test]
fn test_distribute_zero_and_none() {
    assert_eq!(distribute(0, 2), vec![0, 0]);
    assert_eq!(distribute(5, 0), Vec::<usize>::new());
}

#[test]
fn test_build_filled_line_single_fill_right_aligns() {
    let pieces = vec![Piece::Text("AB".into()), Piece::Fill, Piece::Text("C".into())];
    let out = build_filled_line(&pieces, 10, ".", None);
    assert_eq!(out, "AB.......C");
    assert_eq!(out.len(), 10);
}

#[test]
fn test_build_filled_line_multiple_fills_even() {
    let pieces = vec![
        Piece::Text("A".into()),
        Piece::Fill,
        Piece::Text("B".into()),
        Piece::Fill,
        Piece::Text("C".into()),
    ];
    let out = build_filled_line(&pieces, 11, ".", None);
    assert_eq!(out, "A....B....C");
}

#[test]
fn test_build_filled_line_overflow_yields_no_gap() {
    let pieces = vec![Piece::Text("AB".into()), Piece::Fill, Piece::Text("C".into())];
    let out = build_filled_line(&pieces, 2, ".", None);
    assert_eq!(out, "ABC");
}

#[test]
fn test_build_filled_line_uses_display_width_not_bytes() {
    let pieces = vec![Piece::Text("💰".into()), Piece::Fill, Piece::Text("X".into())];
    let out = build_filled_line(&pieces, 10, ".", None);
    assert_eq!(out, "💰.......X");
}

#[test]
fn test_parse_line_recognizes_starship_prompt_token() {
    let tokens = parse_line("$starship_prompt");
    assert_eq!(tokens.len(), 1);
    assert!(matches!(tokens[0], Token::StarshipPrompt));
}

#[test]
fn test_parse_line_starship_prompt_with_literal_text() {
    let tokens = parse_line("prompt: $starship_prompt");
    assert_eq!(tokens.len(), 2);
    assert!(matches!(&tokens[0], Token::Literal(t) if t == "prompt: "));
    assert!(matches!(&tokens[1], Token::StarshipPrompt));
}

// --- further cases ---

#[test]
fn parse_line_drops_bare_dollar_and_splits_names() {
    let tokens = parse_line("$ a$$b");
    assert_eq!(
        tokens,
        vec![
            Token::Literal(" a".to_string()),
            Token::Passthrough("b".to_string()),
        ]
    );
    assert!(parse_line("").is_empty());
}

#[test]
fn parse_line_span_without_closing_paren_is_literal() {
    let tokens = parse_line("[a](b");
    assert_eq!(
        tokens,
        vec![Token::Literal("[".to_string()), Token::Literal("a](b".to_string())]
    );
}

#[test]
fn render_line_fill_uses_width_and_default_appearance() {
    let cfg = CshipConfig::default();
    let resolved = vec![None, None, None];
    let out = render_line("A$fill$git", &resolved, &cfg, Some(5));
    // default fill: "." in bold black
    assert_eq!(out, "A\x1b[1;30m....\x1b[0m");
    let resolved = vec![None, None, Some("BB".to_string())];
    let out = render_line("A$fill$git", &resolved, &cfg, Some(5));
    assert_eq!(out, "A\x1b[1;30m..\x1b[0mBB");
}

#[test]
fn render_line_disabled_fill_collapses() {
    let cfg = CshipConfig {
        fill: Some(FillConfig { symbol: None, style: None, disabled: Some(true) }),
        ..Default::default()
    };
    assert!(!needs_terminal_width(&["A$fill B".to_string()], &cfg));
    let out = render_line("A$fill B", &vec![None, None, None], &cfg, None);
    assert_eq!(out, "A B");
}

#[test]
fn render_line_paints_spans() {
    let cfg = CshipConfig::default();
    let out = render_line("[x](red)", &vec![None], &cfg, None);
    assert_eq!(out, "\x1b[31mx\x1b[0m");
}

#[test]
fn custom_fill_appearance() {
    let cfg = CshipConfig {
        fill: Some(FillConfig { symbol: Some("-".to_string()), style: Some("".to_string()), disabled: None }),
        ..Default::default()
    };
    assert_eq!(fill_appearance(&cfg), ("-".to_string(), Some("".to_string())));
    assert_eq!(fill_appearance(&CshipConfig::default()), (".".to_string(), Some("bold black".to_string())));
    let out = render_line("a$fill", &vec![None, None], &cfg, Some(4));
    assert_eq!(out, "a---");
}

#[test]
fn needs_terminal_width_only_with_fill() {
    let cfg = CshipConfig::default();
    assert!(!needs_terminal_width(&["$cship.model".to_string()], &cfg));
    assert!(needs_terminal_width(&["x".to_string(), "a $fill b".to_string()], &cfg));
}

#[test]
fn effective_lines_split_format() {
    let cfg = CshipConfig { format: Some("$line_break$line_breaka$line_brea".to_string()), ..Default::default() };
    assert_eq!(
        effective_lines(&[], &cfg),
        vec!["".to_string(), "".to_string(), "a$line_brea".to_string()]
    );
}

#[test]
fn render_skips_empty_rows_between() {
    let lines = vec!["a".to_string(), "$x".to_string(), "b".to_string()];
    let cfg = CshipConfig::default();
    let resolved = nothing_rendered(&lines, &cfg);
    assert_eq!(render(&lines, &cfg, &resolved, None), "a\nb");
}

#[test]
fn try_render_checks_answers_and_width() {
    let lines = vec!["[x](fg:#abc) $cship.model".to_string()];
    let cfg = CshipConfig::default();
    let resolved = nothing_rendered(&lines, &cfg);
    assert_eq!(
        try_render(&lines, &cfg, &resolved, None),
        Some("\x1b[38;2;170;187;204mx\x1b[0m ".to_string())
    );
    assert_eq!(try_render(&lines, &cfg, &vec![vec![None]], None), None);
    assert_eq!(try_render(&lines, &cfg, &vec![], None), None);
    let lines = vec!["a$fill".to_string()];
    let resolved = nothing_rendered(&lines, &cfg);
    assert_eq!(try_render(&lines, &cfg, &resolved, None), None);
    assert_eq!(
        try_render(&lines, &cfg, &resolved, Some(3)),
        Some("a\x1b[1;30m..\x1b[0m".to_string())
    );
}

fn source_of(t: &Token) -> String {
    match t {
        Token::Native(n) | Token::Passthrough(n) => format!("${n}"),
        Token::StarshipPrompt => "$starship_prompt".to_string(),
        Token::Fill => "$fill".to_string(),
        Token::Literal(x) => x.clone(),
        Token::StyledSpan { content, style } => format!("[{content}]({style})"),
    }
}

#[test]
fn parse_line_is_lossless_on_example() {
    let line = "in: [a](b) $cship.model[$x $fill $starship_prompt[no";
    let rebuilt: String = parse_line(line).iter().map(source_of).collect();
    assert_eq!(rebuilt, line);
}

#[test]
fn layout_spans_total_width_on_example() {
    let pieces = vec![Piece::Text("ab".into()), Piece::Fill, Piece::Text("c".into()), Piece::Fill];
    let out = build_filled_line(&pieces, 10, "-", None);
    assert_eq!(out, "ab----c---");
    assert_eq!(cship::ansi::display_width(&out), 10);
}

#[test]
fn try_render_line_checks_answers_and_width() {
    let cfg = CshipConfig::default();
    assert_eq!(try_render_line("a$fill", &vec![None, None], &cfg, None), None);
    assert_eq!(try_render_line("a$fill", &vec![None], &cfg, Some(5)), None);
    assert_eq!(try_render_line("a $x", &vec![None, Some("y".to_string())], &cfg, None), Some("a y".to_string()));
}

#[test]
fn fill_with_unrecognised_style_is_plain() {
    let pieces = vec![Piece::Text("ab".into()), Piece::Fill];
    assert_eq!(build_filled_line(&pieces, 4, ".", Some("bg:#aé123")), "ab..");
    assert_eq!(build_filled_line(&pieces, 4, ".", Some("")), "ab..");
}

#[test]
fn unicode_white_space_ends_a_module_name() {
    let tokens = parse_line("$a\u{3000}b");
    assert_eq!(tokens.len(), 2);
    assert!(matches!(tokens[0], Token::Passthrough(ref n) if n == "a"));
    assert!(matches!(tokens[1], Token::Literal(ref t) if t == "\u{3000}b"));
    let tokens = parse_line("$a\u{85}");
    assert!(matches!(tokens[0], Token::Passthrough(ref n) if n == "a"));
    let tokens = parse_line("$a\u{200B}b");
    assert_eq!(tokens.len(), 1);
    assert!(matches!(tokens[0], Token::Passthrough(ref n) if n == "a\u{200B}b"));
}

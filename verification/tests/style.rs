use prmt::style::{
    global_no_color, parse_color, reset_global_no_color_for_tests, AnsiStyle, Color, ModuleStyle,
    NoColorState, Shell,
};
use std::str::FromStr;

#[test]
fn test_parse_simple_color() {
    let style = AnsiStyle::parse("red").unwrap();
    assert_eq!(style.color, Some(Color::Red));
    assert!(!style.bold);
}

#[test]
fn test_parse_color_with_modifiers() {
    let style = AnsiStyle::parse("cyan.bold.italic").unwrap();
    assert_eq!(style.color, Some(Color::Cyan));
    assert!(style.bold);
    assert!(style.italic);
}

#[test]
fn test_parse_hex_color() {
    let style = AnsiStyle::parse("#00ff00").unwrap();
    assert!(matches!(style.color, Some(Color::Rgb(0, 255, 0))));
}

#[test]
fn test_parse_fg_bg_colors() {
    let style = AnsiStyle::parse("red+#00ff00").unwrap();
    assert_eq!(style.color, Some(Color::Red));
    assert_eq!(style.background, Some(Color::Rgb(0, 255, 0)));
}

#[test]
fn test_parse_bg_only() {
    let style = AnsiStyle::parse("+#112233").unwrap();
    assert_eq!(style.color, None);
    assert_eq!(style.background, Some(Color::Rgb(0x11, 0x22, 0x33)));
}

#[test]
fn test_apply_style() {
    let style = AnsiStyle::parse("red.bold").unwrap();
    let result = style.apply("test");
    assert!(result.starts_with("\x1b[31m"));
    assert!(result.contains("\x1b[1m"));
    assert!(result.ends_with("test\x1b[0m"));
}

#[test]
fn test_empty_style() {
    let style = AnsiStyle::parse("").unwrap();
    let result = style.apply("test");
    assert_eq!(result, "test");
}

#[test]
fn test_apply_with_background() {
    let style = AnsiStyle::parse("red+#00ff00").unwrap();
    let result = style.apply("test");
    assert!(result.contains("\x1b[31m"));
    assert!(result.contains("\x1b[48;2;0;255;0m"));
    assert!(result.ends_with("test\x1b[0m"));
}

#[test]
fn test_apply_with_shell_wraps_bash_sequences() {
    let style = AnsiStyle::parse("red.bold").unwrap();
    let result = style.apply_with_shell("ok", Shell::Bash);
    assert!(result.starts_with("\x01\x1b[31m\x1b[1m\x02"));
    assert!(result.ends_with("ok\x01\x1b[0m\x02"));
}

#[test]
fn test_shell_from_str() {
    assert_eq!(Shell::from_str("bash").unwrap(), Shell::Bash);
    assert_eq!(Shell::from_str("ZSH").unwrap(), Shell::Zsh);
    assert_eq!(Shell::from_str("none").unwrap(), Shell::Plain);
    assert!(Shell::from_str("fish").is_err());
}

#[test]
fn global_no_color_respects_env() {
    let mut state = NoColorState::Unknown;
    let mut no_color_set = false;
    reset_global_no_color_for_tests(&mut state);
    assert!(!global_no_color(&mut state, || no_color_set));

    no_color_set = true;
    reset_global_no_color_for_tests(&mut state);
    assert!(global_no_color(&mut state, || no_color_set));

    reset_global_no_color_for_tests(&mut state);
    assert_eq!(state, NoColorState::Unknown);
}

#[test]
fn global_no_color_caches_until_reset() {
    let mut state = NoColorState::Unknown;
    let mut no_color_set = false;
    reset_global_no_color_for_tests(&mut state);
    assert!(!global_no_color(&mut state, || no_color_set));

    no_color_set = true;
    // Without reset the cached answer stays false
    assert!(!global_no_color(&mut state, || no_color_set));

    reset_global_no_color_for_tests(&mut state);
    assert!(global_no_color(&mut state, || no_color_set));
}

#[test]
fn parse_rejects_unknown_component() {
    let err = AnsiStyle::parse("red.sparkly").unwrap_err();
    assert_eq!(err, "Unknown style component: sparkly");
}

#[test]
fn parse_requires_background_after_plus() {
    let err = AnsiStyle::parse("red+").unwrap_err();
    assert_eq!(err, "Unknown style component: red+");
}

#[test]
fn parse_rejects_bad_hex() {
    assert_eq!(AnsiStyle::parse("#12345").unwrap_err(), "Invalid hex color: 12345");
    assert_eq!(AnsiStyle::parse("#12345g").unwrap_err(), "Invalid hex color: 12345g");
    assert_eq!(AnsiStyle::parse("##0a0B0c").unwrap().color, Some(Color::Rgb(10, 11, 12)));
}

#[test]
fn plus_splits_foreground_from_background() {
    // `+` always separates the colours, so `#+...` leaves a bare `#` foreground.
    assert_eq!(AnsiStyle::parse("#+a+b+c").unwrap_err(), "Invalid hex color: ");
    assert_eq!(AnsiStyle::parse("+blue").unwrap().background, Some(Color::Blue));
}

#[test]
fn parse_detects_aborting_hex() {
    // "€" is three bytes: the cut after two bytes falls inside it.
    assert!(AnsiStyle::parse_aborts("#\u{20ac}abc"));
    assert!(AnsiStyle::parse_checked("#\u{20ac}abc").is_none());
    // A failing first pair stops before the second cut is made.
    assert!(!AnsiStyle::parse_aborts("#zz\u{20ac}x"));
    assert!(!AnsiStyle::parse_aborts("red.bold"));
}

#[test]
fn magenta_is_purple_and_attributes_order() {
    let style = AnsiStyle::parse("magenta.underline.dim.reverse.strikethrough.bold.italic").unwrap();
    assert_eq!(style.color, Some(Color::Purple));
    assert_eq!(
        style.apply("x"),
        "\x1b[35m\x1b[1m\x1b[2m\x1b[3m\x1b[4m\x1b[7m\x1b[9mx\x1b[0m"
    );
}

#[test]
fn rgb_codes_use_decimal_components() {
    let style = AnsiStyle::parse("#0a64ff+white").unwrap();
    assert_eq!(style.apply("t"), "\x1b[38;2;10;100;255m\x1b[47mt\x1b[0m");
}

#[test]
fn zsh_wraps_codes_in_percent_braces() {
    let style = AnsiStyle::parse("green").unwrap();
    assert_eq!(style.apply_with_shell("g", Shell::Zsh), "%{\x1b[32m%}g%{\x1b[0m%}");
    let plain = AnsiStyle::parse("").unwrap();
    assert_eq!(plain.apply_with_shell("g", Shell::Zsh), "g");
}

#[test]
fn write_codes_append_to_buffer() {
    let style = AnsiStyle::parse("blue").unwrap();
    let mut buf = String::from("<");
    style.write_start_codes(&mut buf, Shell::Bash);
    style.write_reset(&mut buf, Shell::Bash);
    assert_eq!(buf, "<\x01\x1b[34m\x02\x01\x1b[0m\x02");
    let mut empty = String::from("<");
    AnsiStyle::parse("").unwrap().write_start_codes(&mut empty, Shell::Bash);
    assert_eq!(empty, "<");
}

#[test]
fn shell_names_are_trimmed_and_case_insensitive() {
    assert_eq!(Shell::from_str("  Bash\t").unwrap(), Shell::Bash);
    assert_eq!(Shell::from_str("   ").unwrap(), Shell::Plain);
    assert_eq!(
        Shell::from_str(" Fish ").unwrap_err(),
        "Unknown shell: fish (supported values: bash, zsh, none)"
    );
}

#[test]
fn colour_names_are_case_sensitive() {
    assert_eq!(parse_color("magenta"), Ok(Color::Purple));
    assert_eq!(parse_color("#0a0B0c"), Ok(Color::Rgb(10, 11, 12)));
    assert_eq!(parse_color("Red"), Err("Unknown style component: Red".to_string()));
    assert_eq!(parse_color("#12345"), Err("Invalid hex color: 12345".to_string()));
}

#[test]
fn raw_codes_come_in_a_fixed_order() {
    let style = AnsiStyle::parse("italic.dim.red+blue").unwrap();
    assert!(style.has_style());
    assert!(!AnsiStyle::default().has_style());
    let mut buf = String::from(">");
    style.write_raw_codes(&mut buf);
    assert_eq!(buf, ">\x1b[31m\x1b[44m\x1b[2m\x1b[3m");
}

#[test]
fn joined_styles_lay_the_second_over_the_first() {
    let joined = AnsiStyle::parse("red.bold.blue+green").unwrap();
    let first = AnsiStyle::parse("red.bold").unwrap();
    let second = AnsiStyle::parse("blue+green").unwrap();
    assert_eq!(joined.color, second.color);
    assert_eq!(joined.background, second.background);
    assert!(joined.bold && first.bold && !second.bold);
    assert_eq!(AnsiStyle::parse("red.blink"), Err("Unknown style component: blink".to_string()));
}

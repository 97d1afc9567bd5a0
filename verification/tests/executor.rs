use prmt::error::PromptError;
use prmt::executor::{
    assemble, build_registry, count_placeholders, estimate_output_size, instantiate_module,
    render_outputs, render_placeholder, style_parse_aborts, ModuleKind, Params, Token,
};
use prmt::style::Shell;

fn params(module: &str, style: &str, prefix: &str, suffix: &str) -> Params {
    Params {
        module: module.to_string(),
        format: String::new(),
        style: style.to_string(),
        prefix: prefix.to_string(),
        suffix: suffix.to_string(),
    }
}

fn template() -> Vec<Token> {
    vec![
        Token::Text("[".to_string()),
        Token::Placeholder(params("path", "cyan", "", "")),
        Token::Text(" ".to_string()),
        Token::Placeholder(params("git", "", "(", ")")),
        Token::Placeholder(params("path", "", "", "")),
        Token::Text("]".to_string()),
    ]
}

#[test]
fn registry_lists_each_module_once() {
    let (registry, count) = build_registry(&template()).expect("registry");
    assert_eq!(count, 3);
    assert_eq!(count_placeholders(&template()), 3);
    let names: Vec<&str> = registry.iter().map(|(n, _)| n.as_str()).collect();
    assert_eq!(names, vec!["path", "git"]);
    assert_eq!(registry[0].1, ModuleKind::Path);
    assert_eq!(registry[1].1, ModuleKind::Git);
}

#[test]
fn unknown_module_is_an_error() {
    let tokens = vec![Token::Placeholder(params("weather", "", "", ""))];
    match build_registry(&tokens) {
        Err(PromptError::UnknownModule(name)) => assert_eq!(name, "weather"),
        _ => panic!("expected an unknown module"),
    }
    assert_eq!(instantiate_module("ok"), Some(ModuleKind::ExitOk));
    assert_eq!(instantiate_module("fail"), Some(ModuleKind::ExitFail));
    assert_eq!(instantiate_module("Path"), None);
}

#[test]
fn placeholder_segments_are_wrapped_and_styled() {
    let p = params("git", "red", "<", ">");
    assert_eq!(
        render_placeholder(&p, Some("main".to_string()), false, Shell::Plain).unwrap(),
        Some("\x1b[31m<main>\x1b[0m".to_string())
    );
    assert_eq!(
        render_placeholder(&p, Some("main".to_string()), true, Shell::Plain).unwrap(),
        Some("<main>".to_string())
    );
    assert_eq!(render_placeholder(&p, None, false, Shell::Plain).unwrap(), None);
    let bare = params("git", "red", "", "");
    assert_eq!(render_placeholder(&bare, Some(String::new()), false, Shell::Plain).unwrap(), None);
    let bad = params("git", "glitter", "", "");
    match render_placeholder(&bad, Some("x".to_string()), false, Shell::Plain) {
        Err(PromptError::StyleError { module, error }) => {
            assert_eq!(module, "git");
            assert_eq!(error, "Unknown style component: glitter");
        }
        _ => panic!("expected a style error"),
    }
}

#[test]
fn assemble_interleaves_text_and_segments() {
    let segments = vec![Some("~/p".to_string()), None, Some("p".to_string())];
    assert_eq!(assemble(&template(), &segments), "[~/p p]");
    assert_eq!(estimate_output_size(10), 143);
}

#[test]
fn outputs_render_into_the_template() {
    let outputs = vec![Ok(Some("~/p".to_string())), Ok(None), Ok(Some("p".to_string()))];
    assert_eq!(
        render_outputs(&template(), &outputs, false, Shell::Plain).unwrap(),
        "[\x1b[36m~/p\x1b[0m p]"
    );
    assert_eq!(render_outputs(&template(), &outputs, true, Shell::Plain).unwrap(), "[~/p p]");
    let outputs = vec![Ok(Some("~/p".to_string())), Ok(Some("main".to_string())), Ok(None)];
    assert_eq!(
        render_outputs(&template(), &outputs, true, Shell::Zsh).unwrap(),
        "[~/p (main)]"
    );
}

#[test]
fn first_failing_placeholder_decides_the_error() {
    let outputs = vec![
        Ok(Some("x".to_string())),
        Err(PromptError::UnknownModule("first".to_string())),
        Err(PromptError::UnknownModule("second".to_string())),
    ];
    match render_outputs(&template(), &outputs, false, Shell::Plain) {
        Err(PromptError::UnknownModule(name)) => assert_eq!(name, "first"),
        _ => panic!("expected the first module error"),
    }
    let tokens = vec![
        Token::Placeholder(params("path", "glitter", "", "")),
        Token::Placeholder(params("git", "", "", "")),
    ];
    let outputs = vec![Ok(Some("~".to_string())), Err(PromptError::UnknownModule("git".to_string()))];
    match render_outputs(&tokens, &outputs, false, Shell::Plain) {
        Err(PromptError::StyleError { module, error }) => {
            assert_eq!(module, "path");
            assert_eq!(error, "Unknown style component: glitter");
        }
        _ => panic!("expected the style error of the first placeholder"),
    }
}

#[test]
fn aborting_styles_are_found_before_rendering() {
    let tokens = vec![Token::Placeholder(params("path", "#a\u{e9}bcd", "", ""))];
    assert!(style_parse_aborts(&tokens, &vec![Ok(Some("~".to_string()))], false));
    assert!(!style_parse_aborts(&tokens, &vec![Ok(Some("~".to_string()))], true));
    assert!(!style_parse_aborts(&tokens, &vec![Ok(None)], false));
    assert!(!style_parse_aborts(&template(), &vec![Ok(None), Ok(None), Ok(None)], false));
}

#[test]
fn registry_error_names_the_first_unknown_module() {
    let tokens = vec![
        Token::Placeholder(params("path", "", "", "")),
        Token::Placeholder(params("weather", "", "", "")),
        Token::Placeholder(params("moon", "", "", "")),
    ];
    match build_registry(&tokens) {
        Err(PromptError::UnknownModule(name)) => assert_eq!(name, "weather"),
        _ => panic!("expected the first unknown module"),
    }
}

#[test]
fn no_color_template_uses_bare_segments() {
    let outputs = vec![Ok(Some("~/p".to_string())), Ok(Some(String::new())), Ok(None)];
    assert_eq!(render_outputs(&template(), &outputs, true, Shell::Bash).unwrap(), "[~/p ()]");
}

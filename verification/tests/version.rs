use prmt::error::PromptError;
use prmt::modules::version::render_version;
use std::cell::Cell;
use std::sync::Arc;

fn installed(v: &str) -> Option<Arc<String>> {
    Some(Arc::new(v.to_string()))
}

#[test]
fn version_segment_is_absent_outside_the_project() {
    let looked_up = Cell::new(false);
    let r = render_version(
        false,
        false,
        Ok("full"),
        || {
            looked_up.set(true);
            installed("1.2.3")
        },
        |v| v,
    );
    assert_eq!(r.unwrap(), None);
    assert!(!looked_up.get());
}

#[test]
fn version_segment_is_empty_when_versions_are_hidden() {
    let r = render_version(true, true, Ok("full"), || installed("1.2.3"), |v| v);
    assert_eq!(r.unwrap(), Some(String::new()));
}

#[test]
fn version_segment_passes_on_a_format_error() {
    let err = PromptError::InvalidFormat {
        module: "bun".to_string(),
        format: "weird".to_string(),
        valid_formats: "full, short, major".to_string(),
    };
    let r = render_version(true, false, Err(err), || installed("1.2.3"), |v| v);
    assert!(matches!(r, Err(PromptError::InvalidFormat { .. })));
}

#[test]
fn version_segment_shows_the_version_in_each_format() {
    assert_eq!(
        render_version(true, false, Ok("full"), || installed("1.12.3"), |v| v).unwrap(),
        Some("1.12.3".to_string())
    );
    assert_eq!(
        render_version(true, false, Ok("major"), || installed("1.12.3"), |v| v).unwrap(),
        Some("1".to_string())
    );
    assert_eq!(
        render_version(true, false, Ok("major"), || installed("27"), |v| v).unwrap(),
        Some("27".to_string())
    );
    let shortened = render_version(true, false, Ok("short"), || installed("1.12.3"), |v| {
        format!("<{}>", v)
    });
    assert_eq!(shortened.unwrap(), Some("<1.12.3>".to_string()));
}

#[test]
fn version_segment_is_absent_without_an_installed_version() {
    let r = render_version(true, false, Ok("full"), || None, |v| v);
    assert_eq!(r.unwrap(), None);
}

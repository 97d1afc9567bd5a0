use prmt::modules::path::{
    normalize_relative_path, normalize_relative_short_path, normalize_separators, PathComponent,
    PathFacts, PathModule,
};

fn comp(name: &str) -> PathComponent {
    PathComponent { bytes: name.as_bytes().to_vec(), text: name.to_string(), is_utf8: true }
}

fn comps(path: &str) -> Vec<PathComponent> {
    let mut v = vec![comp("/")];
    for part in path.split('/').filter(|p| !p.is_empty()) {
        v.push(comp(part));
    }
    v
}

fn facts(current: &str, home: Option<&str>) -> PathFacts {
    PathFacts {
        current_display: current.to_string(),
        file_name: current.rsplit('/').find(|p| !p.is_empty()).map(|s| s.to_string()),
        canonical: comps(current),
        home: home.map(comps),
    }
}

#[test]
fn relative_path_inside_home_renders_tilde() {
    let module = PathModule::new();
    let f = facts("/home/user/prmt_test_project_1", Some("/home/user"));

    let value = module.render("", Some(&f)).expect("render").expect("some");

    assert!(
        value.starts_with("~/prmt_test_project_"),
        "Expected path to start with ~/prmt_test_project_, got: {}",
        value
    );
}

#[test]
fn relative_path_with_shared_prefix_is_not_tilde() {
    let module = PathModule::new();
    // Home is `.../prmt_test_base_1/al`; the current directory is its sibling `alpine`.
    let f = facts("/home/user/prmt_test_base_1/alpine", Some("/home/user/prmt_test_base_1/al"));

    let value = module.render("", Some(&f)).expect("render").expect("some");

    assert!(!value.starts_with("~"), "Expected no tilde, got: {}", value);
    assert!(value.ends_with("/alpine"), "Expected path to end with /alpine, got: {}", value);

    let under_home = facts("/home/user/prmt_test_base_1/alpine", Some("/home/user"));
    let value = module.render("", Some(&under_home)).expect("render").expect("some");
    assert!(value.starts_with("~/prmt_test_base_"));
    assert!(value.ends_with("/alpine"));
}

#[test]
fn home_itself_is_tilde_and_short_path_abbreviates() {
    let f = facts("/home/user", Some("/home/user"));
    assert_eq!(normalize_relative_path(&f), "~");
    assert_eq!(normalize_relative_short_path(&f), "~");
    let f = facts("/home/user/src/prmt/app", Some("/home/user"));
    assert_eq!(normalize_relative_path(&f), "~/src/prmt/app");
    assert_eq!(normalize_relative_short_path(&f), "~/s/p/app");
    let f = facts("/var/log/nginx", Some("/home/user"));
    assert_eq!(normalize_relative_path(&f), "/var/log/nginx");
    assert_eq!(normalize_relative_short_path(&f), "/v/l/nginx");
    let f = facts("/var/log", None);
    assert_eq!(normalize_relative_path(&f), "/var/log");
}

#[test]
fn non_utf8_components_in_short_path() {
    let mut f = facts("/data/x/last", None);
    f.canonical[2] = PathComponent { bytes: vec![0xff], text: "\u{fffd}".to_string(), is_utf8: false };
    assert_eq!(normalize_relative_short_path(&f), "/d/?/last");
    f.canonical[3] = PathComponent { bytes: vec![0xfe], text: "\u{fffd}".to_string(), is_utf8: false };
    assert_eq!(normalize_relative_short_path(&f), "/d/?/");
}

#[test]
fn formats_select_the_view() {
    let module = PathModule::new();
    let f = facts("/home/user/code", Some("/home/user"));
    assert_eq!(module.render("r", Some(&f)).unwrap(), Some("~/code".to_string()));
    assert_eq!(module.render("a", Some(&f)).unwrap(), Some("/home/user/code".to_string()));
    assert_eq!(module.render("f", Some(&f)).unwrap(), Some("/home/user/code".to_string()));
    assert_eq!(module.render("rs", Some(&f)).unwrap(), Some("~/code".to_string()));
    assert_eq!(module.render("s", Some(&f)).unwrap(), Some("code".to_string()));
    let root = facts("/", None);
    assert_eq!(module.render("short", Some(&root)).unwrap(), Some(".".to_string()));
    assert!(module.render("wide", Some(&f)).is_err());
    assert_eq!(module.render("wide", None).unwrap(), None);
}

#[test]
fn truncate_keeps_a_prefix_that_fits() {
    let module = PathModule::new();
    let f = facts("/home/user/a-very-long-directory-name", Some("/home/user"));
    assert_eq!(
        module.render("truncate:10", Some(&f)).unwrap(),
        Some("~/a-ver...".to_string())
    );
    assert_eq!(
        module.render("truncate:100", Some(&f)).unwrap(),
        Some("~/a-very-long-directory-name".to_string())
    );
    // An unparsable width falls back to 30 columns.
    assert_eq!(
        module.render("truncate:x", Some(&f)).unwrap(),
        Some("~/a-very-long-directory-name".to_string())
    );
    assert_eq!(module.render("truncate:2", Some(&f)).unwrap(), Some("...".to_string()));
    // Wide characters take two columns.
    let wide = facts("/\u{6f22}\u{5b57}\u{6f22}\u{5b57}", None);
    assert_eq!(
        module.render("truncate:6", Some(&wide)).unwrap(),
        Some("/\u{6f22}...".to_string())
    );
}

#[test]
fn separators_are_kept() {
    assert_eq!(normalize_separators("a/b".to_string()), "a/b");
}

#[test]
fn short_path_keeps_the_last_name_whole() {
    let f = facts("/home/u/projects/prmt", Some("/home/u"));
    assert_eq!(normalize_relative_short_path(&f), "~/p/prmt");
    let f = facts("/usr/local/bin", Some("/home/u"));
    assert_eq!(normalize_relative_short_path(&f), "/u/l/bin");
}

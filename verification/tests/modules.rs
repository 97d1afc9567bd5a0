use prmt::modules::bun::{bun_version_from_output, major_version, BunModule};
use prmt::modules::elixir::{elixir_version_from_output, ElixirModule};

#[test]
fn fs_markers_include_current_and_legacy_lockfiles() {
    let module = BunModule::new();

    assert!(module.fs_markers().contains(&"bun.lock"));
    assert!(module.fs_markers().contains(&"bun.lockb"));
    assert!(module.fs_markers().contains(&"bunfig.toml"));
}

#[test]
fn bun_version_is_trimmed_output() {
    assert_eq!(bun_version_from_output(true, "1.1.30\n"), Some("1.1.30".to_string()));
    assert_eq!(bun_version_from_output(true, "\n"), Some(String::new()));
    assert_eq!(bun_version_from_output(false, "1.1.30"), None);
}

#[test]
fn major_version_is_first_component() {
    assert_eq!(major_version("1.17.3"), "1");
    assert_eq!(major_version("22"), "22");
    assert_eq!(major_version(""), "");
}

#[test]
fn elixir_version_comes_from_the_elixir_line() {
    let out = "Erlang/OTP 26 [erts-14.2]\r\n\r\nElixir 1.16.1 (compiled with Erlang/OTP 26)\n";
    assert_eq!(elixir_version_from_output(true, out), Some("1.16.1".to_string()));
    assert_eq!(elixir_version_from_output(true, "Elixir    \nElixir 1.0"), None);
    assert_eq!(elixir_version_from_output(true, "no version here"), None);
    assert_eq!(elixir_version_from_output(false, out), None);
    assert_eq!(ElixirModule::new().fs_markers(), vec!["mix.exs"]);
}

#[test]
fn elixir_version_comes_from_the_first_elixir_line() {
    let out = "Erlang/OTP 26 [erts-14.1]\n\nElixir 1.15.7 (compiled with Erlang/OTP 26)\n";
    assert_eq!(elixir_version_from_output(true, out), Some("1.15.7".to_string()));
}

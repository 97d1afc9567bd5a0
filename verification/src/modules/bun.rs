//! The bun module: the files that mark a bun project and the version that
//! `bun --version` prints.
use vstd::prelude::*;
use vstd::string::*;
use crate::text::{chars_of, string_from_chars, trim, trim_bounds, find_char, first_index};

verus! {

/// The files whose presence marks a bun project.
pub open spec fn bun_markers() -> Seq<Seq<char>> {
    seq!["bun.lock"@, "bun.lockb"@, "bunfig.toml"@]
}

/// The bun prompt module.
pub struct BunModule;

impl BunModule {
    pub fn new() -> (r: BunModule) {
        BunModule
    }

    /// The files whose presence marks a bun project: the current lockfile,
    /// the legacy binary lockfile and the configuration file.
    pub fn fs_markers(&self) -> (r: Vec<&'static str>)
        ensures
            r@.map_values(|m: &'static str| m@) == bun_markers(),
    {
        let mut v: Vec<&'static str> = Vec::new();
        v.push("bun.lock");
        v.push("bun.lockb");
        v.push("bunfig.toml");
        assert(v@.map_values(|m: &'static str| m@) =~= bun_markers());
        v
    }
}

/// The version that `bun --version` reports: its output trimmed, when it
/// succeeded.
pub fn bun_version_from_output(success: bool, stdout: &str) -> (r: Option<String>)
    ensures
        match r {
            Some(v) => success && v@ == trim(stdout@),
            None => !success,
        },
{
    if !success {
        return None;
    }
    let cs = chars_of(stdout);
    let (lo, hi) = trim_bounds(&cs);
    Some(string_from_chars(&cs, lo, hi))
}

/// The major component of a version: what precedes its first `.`, or the
/// whole version when it has none (`version.split('.').next()`).
pub open spec fn major_component(version: Seq<char>) -> Seq<char> {
    version.take(first_index(version, '.'))
}

/// The major component of `version` (`version.split('.').next()`).
pub fn major_version(version: &str) -> (r: String)
    ensures
        r@ == major_component(version@),
{
    let cs = chars_of(version);
    let n = cs.len();
    let k = find_char(&cs, 0, n, '.');
    assert(cs@.subrange(0, n as int) =~= cs@);
    assert(cs@.subrange(0, k as int) =~= cs@.take(k as int));
    string_from_chars(&cs, 0, k)
}

} // verus!

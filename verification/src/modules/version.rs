//! The segment of a tool-version module (bun, elixir): nothing outside the
//! tool's projects, empty text when versions are hidden, otherwise the
//! installed version in the form the format asks for.
use vstd::prelude::*;
use vstd::string::*;
use std::sync::Arc;
use crate::error::PromptError;
use crate::modules::bun::{major_component, major_version};
use crate::text::{chars_of, slice_eq_str};

verus! {

/// The normalised version formats.
pub open spec fn is_version_format(f: Seq<char>) -> bool {
    f == "full"@ || f == "short"@ || f == "major"@
}

/// The version as the `full` and `major` formats show it.
pub open spec fn version_text(format: Seq<char>, version: Seq<char>) -> Seq<char> {
    if format == "full"@ {
        version
    } else {
        major_component(version)
    }
}

/// Whether the text of `f` is exactly `lit`.
fn is_format(f: &str, lit: &str) -> (r: bool)
    ensures
        r == (f@ == lit@),
{
    let cs = chars_of(f);
    let n = cs.len();
    assert(cs@.subrange(0, n as int) =~= cs@);
    slice_eq_str(&cs, 0, n, lit)
}

/// Renders a tool-version segment. `markers_found` tells whether one of the
/// tool's marker files was found and `no_version` whether versions are hidden;
/// `format` is the module's format as the version-format check normalised it
/// (`full`, `short` or `major`), or that check's error. `version` looks up the
/// installed version and `shorten` gives the short form of a version; the
/// `requires` let `version` be called only when the segment shows a version,
/// and `shorten` only for `short`.
pub fn render_version<V, S>(
    markers_found: bool,
    no_version: bool,
    format: Result<&str, PromptError>,
    version: V,
    shorten: S,
) -> (r: Result<Option<String>, PromptError>) where
    V: FnOnce() -> Option<Arc<String>>,
    S: FnOnce(String) -> String,

    requires
        markers_found && !no_version && format is Ok ==> version.requires(()),
        match format {
            Ok(f) => markers_found && !no_version && f@ == "short"@ ==> forall|v: String|
                #[trigger] shorten.requires((v,)),
            Err(_) => true,
        },
        format matches Ok(f) ==> is_version_format(f@),
    ensures
        !markers_found ==> r == Ok::<Option<String>, PromptError>(None),
        markers_found && no_version ==> (r matches Ok(Some(s)) && s@.len() == 0),
        markers_found && !no_version ==> match format {
            Err(e) => r == Err::<Option<String>, PromptError>(e),
            Ok(f) => exists|found: Option<Arc<String>>|
                #[trigger] version.ensures((), found) && match found {
                    None => r == Ok::<Option<String>, PromptError>(None),
                    Some(v) => r matches Ok(Some(seg)) && if f@ == "short"@ {
                        shorten.ensures((*v,), seg)
                    } else {
                        seg@ == version_text(f@, (*v)@)
                    },
                },
        },
{
    if !markers_found {
        return Ok(None);
    }
    if no_version {
        return Ok(Some(String::new()));
    }
    let f = match format {
        Ok(f) => f,
        Err(e) => {
            return Err(e);
        },
    };
    let found = version();
    let ghost g = found;
    let v = match found {
        Some(v) => v,
        None => {
            assert(version.ensures((), g) && g is None);
            return Ok(None);
        },
    };
    let text: &String = &*v;
    proof {
        reveal_strlit("full");
        reveal_strlit("short");
        assert("full"@.len() != "short"@.len());
    }
    let seg = if is_format(f, "full") {
        text.clone()
    } else if is_format(f, "short") {
        shorten(text.clone())
    } else {
        major_version(text.as_str())
    };
    let r = Ok(Some(seg));
    assert(version.ensures((), g) && match g {
        None => r == Ok::<Option<String>, PromptError>(None),
        Some(v) => r matches Ok(Some(seg)) && if f@ == "short"@ {
            shorten.ensures((*v,), seg)
        } else {
            seg@ == version_text(f@, (*v)@)
        },
    });
    r
}

} // verus!

//! The elixir module: the file that marks a mix project and the version that
//! `elixir --version` reports.
use vstd::prelude::*;
use vstd::string::*;
use crate::text::{is_whitespace, lines_of, slice_eq_str, string_from_chars, text_lines, views, char_is_whitespace};

verus! {

/// The elixir prompt module.
pub struct ElixirModule;

impl ElixirModule {
    pub fn new() -> (r: ElixirModule) {
        ElixirModule
    }

    /// The file whose presence marks a mix project.
    pub fn fs_markers(&self) -> (r: Vec<&'static str>)
        ensures
            r@.len() == 1,
            r@[0]@ == "mix.exs"@,
    {
        let mut v: Vec<&'static str> = Vec::new();
        v.push("mix.exs");
        v
    }
}

/// Number of leading whitespace characters of `s`.
pub open spec fn first_word_start(s: Seq<char>) -> int
    decreases s.len(),
{
    if s.len() > 0 && is_whitespace(s[0]) {
        1 + first_word_start(s.drop_first())
    } else {
        0
    }
}

/// Number of leading characters of `s` that are not whitespace.
pub open spec fn word_len(s: Seq<char>) -> int
    decreases s.len(),
{
    if s.len() > 0 && !is_whitespace(s[0]) {
        1 + word_len(s.drop_first())
    } else {
        0
    }
}

/// The first whitespace-separated word of `s` (`split_whitespace().next()`).
pub open spec fn first_word(s: Seq<char>) -> Option<Seq<char>> {
    let t = s.skip(first_word_start(s));
    if t.len() == 0 {
        None
    } else {
        Some(t.take(word_len(t)))
    }
}

pub open spec fn starts_with_elixir(l: Seq<char>) -> bool {
    l.len() >= 7 && l.take(7) == "Elixir "@
}

/// The version in `elixir --version` output: the first word after `Elixir `
/// on the first line that starts with it; nothing when that line has no word
/// or no line starts with it.
pub open spec fn spec_elixir_version(lines: Seq<Seq<char>>) -> Option<Seq<char>>
    decreases lines.len(),
{
    if lines.len() == 0 {
        None
    } else if starts_with_elixir(lines[0]) {
        first_word(lines[0].skip(7))
    } else {
        spec_elixir_version(lines.drop_first())
    }
}

proof fn lemma_span(s: Seq<char>, i: int, ws: bool)
    requires
        0 <= i <= s.len(),
        forall|k: int| 0 <= k < i ==> is_whitespace(s[k]) == ws,
        i == s.len() || is_whitespace(s[i]) != ws,
    ensures
        ws ==> first_word_start(s) == i,
        !ws ==> word_len(s) == i,
    decreases s.len(),
{
    if s.len() > 0 && is_whitespace(s[0]) == ws && i > 0 {
        assert forall|k: int| 0 <= k < i - 1 implies is_whitespace(s.drop_first()[k]) == ws by {
            assert(s.drop_first()[k] == s[k + 1]);
        }
        if i < s.len() {
            assert(s.drop_first()[i - 1] == s[i]);
        }
        lemma_span(s.drop_first(), i - 1, ws);
    }
}

/// The first word of `cs[lo..]`.
fn first_word_of(cs: &Vec<char>, lo: usize) -> (r: Option<String>)
    requires
        lo <= cs@.len(),
    ensures
        match r {
            Some(w) => first_word(cs@.skip(lo as int)) == Some(w@),
            None => first_word(cs@.skip(lo as int)) is None,
        },
{
    let ghost s = cs@.skip(lo as int);
    let n = cs.len();
    let mut i: usize = lo;
    while i < n && char_is_whitespace(cs[i])
        invariant
            lo <= i <= n == cs@.len(),
            s == cs@.skip(lo as int),
            forall|k: int| 0 <= k < i - lo ==> is_whitespace(s[k]),
        decreases n - i,
    {
        i = i + 1;
    }
    proof {
        lemma_span(s, i - lo, true);
    }
    let ghost t = s.skip(i - lo);
    assert(t =~= cs@.skip(i as int));
    if i == n {
        return None;
    }
    let mut j: usize = i;
    while j < n && !char_is_whitespace(cs[j])
        invariant
            i <= j <= n == cs@.len(),
            t == cs@.skip(i as int),
            forall|k: int| 0 <= k < j - i ==> !is_whitespace(t[k]),
        decreases n - j,
    {
        j = j + 1;
    }
    proof {
        lemma_span(t, j - i, false);
        assert(t.take(j - i) =~= cs@.subrange(i as int, j as int));
    }
    Some(string_from_chars(cs, i, j))
}

/// The version that `elixir --version` printed, when it succeeded.
pub fn elixir_version_from_output(success: bool, stdout: &str) -> (r: Option<String>)
    ensures
        match r {
            Some(v) => success && spec_elixir_version(text_lines(stdout@)) == Some(v@),
            None => !success || spec_elixir_version(text_lines(stdout@)) is None,
        },
{
    if !success {
        return None;
    }
    let lines = lines_of(stdout);
    let ghost ls = views(lines@);
    let mut i: usize = 0;
    assert(ls.skip(0) =~= ls);
    while i < lines.len()
        invariant
            ls == views(lines@),
            ls == text_lines(stdout@),
            success,
            i <= lines@.len(),
            spec_elixir_version(ls.skip(i as int)) == spec_elixir_version(ls),
        decreases lines@.len() - i,
    {
        let line = &lines[i];
        assert(ls.skip(i as int)[0] == line@);
        assert(ls.skip(i as int).drop_first() =~= ls.skip(i + 1));
        if line.len() >= 7 && slice_eq_str(line, 0, 7, "Elixir ") {
            assert(line@.subrange(0, 7) =~= line@.take(7));
            assert(starts_with_elixir(ls.skip(i as int)[0]));
            assert(spec_elixir_version(ls.skip(i as int)) == first_word(line@.skip(7)));
            return first_word_of(line, 7);
        }
        proof {
            if line@.len() >= 7 {
                assert(line@.subrange(0, 7) =~= line@.take(7));
            }
        }
        i = i + 1;
    }
    None
}

} // verus!

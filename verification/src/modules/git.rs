//! The git module: the format it accepts, how `git status --porcelain` output
//! and worktree events become change flags, and how the segment is built.
use vstd::prelude::*;
use vstd::string::*;
use vstd::seq_lib::lemma_concat_associative;
use crate::error::{is_invalid_format, PromptError};
use crate::memo::{GitInfo, GitMemo};
use crate::text::{strip_cr, text_lines, chars_of, slice_eq_str, split_chars, split_on, trim, trim_bounds, string_from_chars, utf8_len, views};

verus! {

/// Which changes a working tree has.
#[derive(Debug, Clone, Copy, PartialEq, Eq, Structural)]
pub struct GitStatus {
    pub modified: bool,
    pub staged: bool,
    pub untracked: bool,
}

impl GitStatus {
    /// No change at all.
    pub fn empty() -> (r: GitStatus)
        ensures
            r == (GitStatus { modified: false, staged: false, untracked: false }),
    {
        GitStatus { modified: false, staged: false, untracked: false }
    }

    /// Whether no flag is set.
    pub fn is_empty(&self) -> (r: bool)
        ensures
            r == (!self.modified && !self.staged && !self.untracked),
    {
        !self.modified && !self.staged && !self.untracked
    }

    /// Whether every flag of `other` is set in `self`.
    pub fn contains(&self, other: GitStatus) -> (r: bool)
        ensures
            r == ((other.modified ==> self.modified) && (other.staged ==> self.staged) && (
            other.untracked ==> self.untracked)),
    {
        (!other.modified || self.modified) && (!other.staged || self.staged) && (!other.untracked
            || self.untracked)
    }

    /// Sets every flag of `other` in `self`.
    pub fn insert(&mut self, other: GitStatus)
        ensures
            final(self).modified == (old(self).modified || other.modified),
            final(self).staged == (old(self).staged || other.staged),
            final(self).untracked == (old(self).untracked || other.untracked),
    {
        self.modified = self.modified || other.modified;
        self.staged = self.staged || other.staged;
        self.untracked = self.untracked || other.untracked;
    }
}

/// How much the git segment shows: the branch with change markers, or the
/// branch alone.
#[derive(Debug, Clone, Copy, PartialEq, Eq, Structural)]
pub enum GitMode {
    Full,
    Short,
}

/// A parsed git format.
#[derive(Debug, Clone, Copy, PartialEq, Eq, Structural)]
pub struct GitFormat {
    pub mode: GitMode,
    pub owned_only: bool,
}

/// The formats that the git module lists in its error.
pub open spec fn git_valid_formats() -> Seq<char> {
    "full, f, short, s, +o, +owned"@
}

/// The mode and ownership flag that the `+`-separated parts give in turn, or
/// `None` at the first part that is not known. Empty parts are skipped.
pub open spec fn spec_git_format_parts(parts: Seq<Seq<char>>) -> Option<(Option<GitMode>, bool)>
    decreases parts.len(),
{
    if parts.len() == 0 {
        Some((None, false))
    } else {
        match spec_git_format_parts(parts.drop_last()) {
            None => None,
            Some((mode, owned)) => {
                let p = parts.last();
                if p.len() == 0 {
                    Some((mode, owned))
                } else if p == "full"@ || p == "f"@ {
                    Some((Some(GitMode::Full), owned))
                } else if p == "short"@ || p == "s"@ {
                    Some((Some(GitMode::Short), owned))
                } else if p == "owned"@ || p == "o"@ || p == "owned-only"@ || p == "owned_only"@ {
                    Some((mode, true))
                } else {
                    None
                }
            },
        }
    }
}

/// The git format that `format` denotes, or `None` when it is invalid. The
/// mode defaults to full.
pub open spec fn spec_parse_git_format(format: Seq<char>) -> Option<GitFormat> {
    match spec_git_format_parts(split_on(format, '+')) {
        Some((mode, owned)) => Some(
            GitFormat {
                mode: match mode {
                    Some(m) => m,
                    None => GitMode::Full,
                },
                owned_only: owned,
            },
        ),
        None => None,
    }
}

/// A format part naming the mode.
pub open spec fn is_mode_part(p: Seq<char>) -> bool {
    p == "full"@ || p == "f"@ || p == "short"@ || p == "s"@
}

/// The mode a mode part names.
pub open spec fn mode_of_part(p: Seq<char>) -> GitMode {
    if p == "short"@ || p == "s"@ {
        GitMode::Short
    } else {
        GitMode::Full
    }
}

/// A format part asking for repositories owned by the user.
pub open spec fn is_owned_part(p: Seq<char>) -> bool {
    p == "owned"@ || p == "o"@ || p == "owned-only"@ || p == "owned_only"@
}

proof fn lemma_part_names_distinct(p: Seq<char>)
    ensures
        !(is_mode_part(p) && is_owned_part(p)),
        is_mode_part(p) || is_owned_part(p) ==> p.len() > 0,
        p == "short"@ || p == "s"@ ==> !(p == "full"@ || p == "f"@),
{
    reveal_strlit("full");
    reveal_strlit("f");
    reveal_strlit("short");
    reveal_strlit("s");
    reveal_strlit("owned");
    reveal_strlit("o");
    reveal_strlit("owned-only");
    reveal_strlit("owned_only");
    if is_mode_part(p) && is_owned_part(p) {
        assert(p.len() > 0);
        assert(p[0] == 'f' || p[0] == 's');
        assert(p[0] == 'o');
    }
    if p == "short"@ || p == "s"@ {
        assert(p[0] == 's');
    }
}

proof fn lemma_git_format_parts_law(ps: Seq<Seq<char>>)
    ensures
        (spec_git_format_parts(ps) is Some) <==> forall|k: int|
            0 <= k < ps.len() ==> #[trigger] ps[k].len() == 0 || is_mode_part(ps[k])
                || is_owned_part(ps[k]),
        spec_git_format_parts(ps) matches Some((mode, owned)) ==> {
            &&& owned <==> exists|k: int| 0 <= k < ps.len() && is_owned_part(#[trigger] ps[k])
            &&& mode is None <==> forall|k: int| 0 <= k < ps.len() ==> !is_mode_part(#[trigger] ps[k])
            &&& mode matches Some(m) ==> exists|k: int|
                0 <= k < ps.len() && is_mode_part(#[trigger] ps[k]) && mode_of_part(ps[k]) == m
                    && forall|j: int| k < j < ps.len() ==> !is_mode_part(#[trigger] ps[j])
        },
    decreases ps.len(),
{
    if ps.len() > 0 {
        let init = ps.drop_last();
        let p = ps.last();
        lemma_git_format_parts_law(init);
        lemma_part_names_distinct(p);
        assert forall|k: int| 0 <= k < init.len() implies #[trigger] init[k] == ps[k] by {}
        assert(ps[ps.len() - 1] == p);
        match spec_git_format_parts(init) {
            None => {
                let k = choose|k: int|
                    0 <= k < init.len() && !(#[trigger] init[k].len() == 0 || is_mode_part(init[k])
                        || is_owned_part(init[k]));
                assert(!(ps[k].len() == 0 || is_mode_part(ps[k]) || is_owned_part(ps[k])));
            },
            Some((mode, owned)) => {
                if p.len() == 0 || is_mode_part(p) || is_owned_part(p) {
                    assert(spec_git_format_parts(ps) is Some);
                    assert forall|k: int| 0 <= k < ps.len() implies #[trigger] ps[k].len() == 0
                        || is_mode_part(ps[k]) || is_owned_part(ps[k]) by {
                        if k < init.len() {
                            assert(init[k].len() == 0 || is_mode_part(init[k]) || is_owned_part(
                                init[k],
                            ));
                        }
                    }
                } else {
                    assert(spec_git_format_parts(ps) is None);
                }
                if let Some((mode2, owned2)) = spec_git_format_parts(ps) {
                    if owned2 {
                        if !is_owned_part(p) {
                            let k = choose|k: int| 0 <= k < init.len() && is_owned_part(#[trigger] init[k]);
                            assert(is_owned_part(ps[k]));
                        }
                    } else {
                        assert forall|k: int| 0 <= k < ps.len() implies !is_owned_part(#[trigger] ps[k]) by {
                            if k < init.len() {
                                assert(!is_owned_part(init[k]));
                            }
                        }
                    }
                    if is_mode_part(p) {
                        assert(mode2 == Some(mode_of_part(p)));
                        let k = ps.len() - 1;
                        assert(is_mode_part(ps[k]) && mode_of_part(ps[k]) == mode_of_part(p));
                    } else {
                        assert(mode2 == mode);
                        if mode2 is None {
                            assert forall|k: int| 0 <= k < ps.len() implies !is_mode_part(#[trigger] ps[k]) by {
                                if k < init.len() {
                                    assert(!is_mode_part(init[k]));
                                }
                            }
                        } else {
                            let m = mode2->0;
                            let k = choose|k: int|
                                0 <= k < init.len() && is_mode_part(#[trigger] init[k]) && mode_of_part(init[k]) == m
                                    && forall|j: int| k < j < init.len() ==> !is_mode_part(#[trigger] init[j]);
                            assert(is_mode_part(ps[k]) && mode_of_part(ps[k]) == m);
                            assert forall|j: int| k < j < ps.len() implies !is_mode_part(#[trigger] ps[j]) by {
                                if j < init.len() {
                                    assert(!is_mode_part(init[j]));
                                }
                            }
                        }
                    }
                }
            },
        }
    }
}

/// The git format is valid exactly when each non-empty `+`-separated part
/// names a mode or the owned-only flag; then the last mode part decides the
/// mode (full when there is none), and any owned part sets the flag.
pub proof fn lemma_git_format_by_parts(format: Seq<char>)
    ensures
        (spec_parse_git_format(format) is Some) <==> forall|k: int|
            0 <= k < split_on(format, '+').len() ==> #[trigger] split_on(format, '+')[k].len() == 0
                || is_mode_part(split_on(format, '+')[k]) || is_owned_part(split_on(format, '+')[k]),
        spec_parse_git_format(format) matches Some(f) ==> {
            let ps = split_on(format, '+');
            &&& f.owned_only <==> exists|k: int| 0 <= k < ps.len() && is_owned_part(#[trigger] ps[k])
            &&& (forall|k: int| 0 <= k < ps.len() ==> !is_mode_part(#[trigger] ps[k])) ==> f.mode
                == GitMode::Full
            &&& (exists|k: int| 0 <= k < ps.len() && is_mode_part(#[trigger] ps[k])) ==> exists|k: int|
                0 <= k < ps.len() && is_mode_part(#[trigger] ps[k]) && mode_of_part(ps[k]) == f.mode
                    && forall|j: int| k < j < ps.len() ==> !is_mode_part(#[trigger] ps[j])
        },
{
    lemma_git_format_parts_law(split_on(format, '+'));
}

proof fn lemma_git_format_parts_settled(ps: Seq<Seq<char>>, i: int)
    requires
        0 <= i <= ps.len(),
        spec_git_format_parts(ps.take(i)) is None,
    ensures
        spec_git_format_parts(ps) is None,
    decreases ps.len(),
{
    if i < ps.len() {
        assert(ps.drop_last().take(i) =~= ps.take(i));
        lemma_git_format_parts_settled(ps.drop_last(), i);
    } else {
        assert(ps.take(i) =~= ps);
    }
}

/// Parses the git module's format: `+`-separated parts naming the mode (`full`,
/// `f`, `short`, `s`) and whether only repositories owned by the user count
/// (`owned`, `o`, `owned-only`, `owned_only`).
pub fn parse_git_format(format: &str) -> (r: Result<GitFormat, PromptError>)
    ensures
        match r {
            Ok(f) => spec_parse_git_format(format@) == Some(f),
            Err(e) => spec_parse_git_format(format@) is None && is_invalid_format(
                e,
                "git"@,
                format@,
                git_valid_formats(),
            ),
        },
{
    let cs = chars_of(format);
    let parts = split_chars(&cs, '+');
    let ghost ps = views(parts@);
    let mut mode: Option<GitMode> = None;
    let mut owned_only = false;
    let mut i: usize = 0;
    assert(ps.take(0) =~= Seq::<Seq<char>>::empty());
    while i < parts.len()
        invariant
            ps == views(parts@),
            ps == split_on(format@, '+'),
            i <= parts@.len(),
            spec_git_format_parts(ps.take(i as int)) == Some((mode, owned_only)),
        decreases parts@.len() - i,
    {
        assert(ps.take(i + 1).drop_last() =~= ps.take(i as int));
        let part = &parts[i];
        assert(ps[i as int] == part@);
        let n = part.len();
        assert(part@.subrange(0, n as int) =~= part@);
        if n == 0 {
        } else if slice_eq_str(part, 0, n, "full") || slice_eq_str(part, 0, n, "f") {
            mode = Some(GitMode::Full);
        } else if slice_eq_str(part, 0, n, "short") || slice_eq_str(part, 0, n, "s") {
            mode = Some(GitMode::Short);
        } else if slice_eq_str(part, 0, n, "owned") || slice_eq_str(part, 0, n, "o")
            || slice_eq_str(part, 0, n, "owned-only") || slice_eq_str(part, 0, n, "owned_only") {
            owned_only = true;
        } else {
            proof {
                lemma_git_format_parts_settled(ps, i + 1);
            }
            return Err(
                PromptError::invalid_format("git", format, "full, f, short, s, +o, +owned"),
            );
        }
        i = i + 1;
    }
    assert(ps.take(i as int) =~= ps);
    Ok(
        GitFormat {
            mode: match mode {
                Some(m) => m,
                None => GitMode::Full,
            },
            owned_only,
        },
    )
}


/// A porcelain line for an untracked path.
pub open spec fn line_untracked(l: Seq<char>) -> bool {
    l.len() >= 2 && l[0] == '?' && l[1] == '?'
}

/// A porcelain line of at least two bytes whose first byte is a change in the
/// index.
pub open spec fn line_staged(l: Seq<char>) -> bool {
    !line_untracked(l) && l.len() > 0 && utf8_len(l) >= 2 && l[0] != ' ' && l[0] != '?'
}

/// A porcelain line of at least two bytes whose second byte is a change in the
/// working tree (a byte inside a multi-byte first character counts).
pub open spec fn line_modified(l: Seq<char>) -> bool {
    !line_untracked(l) && l.len() > 0 && utf8_len(l) >= 2 && ((l[0] as u32) >= 0x80 || (l[1]
        != ' ' && l[1] != '?'))
}

/// The flags that the lines of `git status --porcelain=v1` output set.
pub open spec fn porcelain_status(lines: Seq<Seq<char>>) -> GitStatus {
    GitStatus {
        modified: exists|k: int| 0 <= k < lines.len() && line_modified(#[trigger] lines[k]),
        staged: exists|k: int| 0 <= k < lines.len() && line_staged(#[trigger] lines[k]),
        untracked: exists|k: int| 0 <= k < lines.len() && line_untracked(#[trigger] lines[k]),
    }
}

proof fn lemma_utf8_len_at_least(s: Seq<char>)
    ensures
        utf8_len(s) >= s.len(),
        s.len() == 1 ==> utf8_len(s) == crate::text::char_utf8_len(s[0]),
    decreases s.len(),
{
    if s.len() > 0 {
        lemma_utf8_len_at_least(s.drop_last());
        if s.len() == 1 {
            assert(s.drop_last().len() == 0);
        }
    }
}

/// The flags of one porcelain line `cs[lo..hi]`.
fn line_status(cs: &Vec<char>, lo: usize, hi: usize) -> (r: GitStatus)
    requires
        lo <= hi <= cs@.len(),
    ensures
        r.untracked == line_untracked(cs@.subrange(lo as int, hi as int)),
        r.staged == line_staged(cs@.subrange(lo as int, hi as int)),
        r.modified == line_modified(cs@.subrange(lo as int, hi as int)),
{
    let ghost l = cs@.subrange(lo as int, hi as int);
    proof {
        lemma_utf8_len_at_least(l);
    }
    let mut st = GitStatus::empty();
    if hi - lo >= 2 && cs[lo] == '?' && cs[lo + 1] == '?' {
        st.untracked = true;
    } else if hi > lo {
        let first = cs[lo];
        let wide = (first as u32) >= 0x80;
        if hi - lo >= 2 || wide {
            if first != ' ' && first != '?' {
                st.staged = true;
            }
            if wide || (cs[lo + 1] != ' ' && cs[lo + 1] != '?') {
                st.modified = true;
            }
        }
    }
    st
}

/// The change flags that `git status --porcelain=v1` reports: none when the
/// command did not succeed; otherwise, in its output `text`, untracked when a
/// line starts with `??`, staged when another line's first byte, and modified
/// when its second byte, is neither a space nor `?`.
pub fn status_from_porcelain(success: bool, text: &str) -> (r: GitStatus)
    ensures
        !success ==> r == GitStatus::empty_spec(),
        success ==> r == porcelain_status(text_lines(text@)),
{
    if !success {
        return GitStatus::empty();
    }
    let cs = chars_of(text);
    let pieces = split_chars(&cs, '\n');
    let ghost ps = views(pieces@);
    let ghost lines = text_lines(text@);
    proof {
        crate::text::lemma_split_on_nonempty(cs@, '\n');
    }
    let last = pieces.len() - 1;
    let mut st = GitStatus::empty();
    let mut i: usize = 0;
    while i < last
        invariant
            ps == views(pieces@),
            ps == split_on(text@, '\n'),
            last == ps.len() - 1,
            i <= last,
            lines == text_lines(text@),
            st == porcelain_status(lines.take(i as int)),
        decreases last - i,
    {
        let piece = &pieces[i];
        assert(ps[i as int] == piece@);
        let n = piece.len();
        let end = if n > 0 && piece[n - 1] == '\r' {
            n - 1
        } else {
            n
        };
        assert(piece@.subrange(0, end as int) =~= strip_cr(piece@));
        assert(lines[i as int] == strip_cr(piece@));
        let ls = line_status(piece, 0, end);
        let ghost before = lines.take(i as int);
        let ghost after = lines.take(i + 1);
        assert(after =~= before.push(lines[i as int]));
        st.insert(ls);
        assert forall|k: int| 0 <= k < after.len() implies #[trigger] after[k] == (if k < i {
            before[k]
        } else {
            lines[i as int]
        }) by {}
        assert(st == porcelain_status(after)) by {
            if st.modified && !ls.modified {
                let k = choose|k: int| 0 <= k < before.len() && line_modified(#[trigger] before[k]);
                assert(after[k] == before[k]);
            }
            if st.staged && !ls.staged {
                let k = choose|k: int| 0 <= k < before.len() && line_staged(#[trigger] before[k]);
                assert(after[k] == before[k]);
            }
            if st.untracked && !ls.untracked {
                let k = choose|k: int| 0 <= k < before.len() && line_untracked(
                    #[trigger] before[k],
                );
                assert(after[k] == before[k]);
            }
            if ls.modified {
                assert(line_modified(after[i as int]));
            }
            if ls.staged {
                assert(line_staged(after[i as int]));
            }
            if ls.untracked {
                assert(line_untracked(after[i as int]));
            }
        }
        i = i + 1;
    }
    let tail = &pieces[last];
    assert(ps[last as int] == tail@);
    let n = tail.len();
    if n == 0 {
        assert(lines.take(i as int) =~= lines);
        return st;
    }
    assert(tail@.subrange(0, n as int) =~= tail@);
    let ls = line_status(tail, 0, n);
    let ghost before = lines.take(i as int);
    assert(lines =~= before.push(tail@));
    st.insert(ls);
    assert forall|k: int| 0 <= k < lines.len() implies #[trigger] lines[k] == (if k < i {
        before[k]
    } else {
        tail@
    }) by {}
    assert(st == porcelain_status(lines)) by {
        if st.modified && !ls.modified {
            let k = choose|k: int| 0 <= k < before.len() && line_modified(#[trigger] before[k]);
            assert(lines[k] == before[k]);
        }
        if st.staged && !ls.staged {
            let k = choose|k: int| 0 <= k < before.len() && line_staged(#[trigger] before[k]);
            assert(lines[k] == before[k]);
        }
        if st.untracked && !ls.untracked {
            let k = choose|k: int| 0 <= k < before.len() && line_untracked(#[trigger] before[k]);
            assert(lines[k] == before[k]);
        }
        if ls.modified {
            assert(line_modified(lines[i as int]));
        }
        if ls.staged {
            assert(line_staged(lines[i as int]));
        }
        if ls.untracked {
            assert(line_untracked(lines[i as int]));
        }
    }
    st
}


/// `s` followed by `marker` when `cond` holds.
pub open spec fn mark_if(s: Seq<char>, cond: bool, marker: char) -> Seq<char> {
    if cond {
        s.push(marker)
    } else {
        s
    }
}

/// The git segment: the branch, and in full mode `*` for changes, `+` for
/// staged changes and `?` for untracked files, in that order.
pub open spec fn git_segment(mode: GitMode, info: GitInfo) -> Seq<char> {
    match mode {
        GitMode::Short => info.branch@,
        GitMode::Full => mark_if(
            mark_if(mark_if(info.branch@, info.has_changes, '*'), info.has_staged, '+'),
            info.has_untracked,
            '?',
        ),
    }
}

/// The segment for `info` in `mode`.
pub fn build_segment(mode: GitMode, info: &GitInfo) -> (r: String)
    ensures
        r@ == git_segment(mode, *info),
{
    let mut result = info.branch.clone();
    match mode {
        GitMode::Short => result,
        GitMode::Full => {
            if info.has_changes {
                crate::text::push_char(&mut result, '*');
            }
            if info.has_staged {
                crate::text::push_char(&mut result, '+');
            }
            if info.has_untracked {
                crate::text::push_char(&mut result, '?');
            }
            result
        },
    }
}

/// The facts to remember for a branch and its change flags.
pub open spec fn info_of(branch: String, status: GitStatus) -> GitInfo {
    GitInfo {
        branch: branch,
        has_changes: status.modified,
        has_staged: status.staged,
        has_untracked: status.untracked,
    }
}

/// The value a git command printed: nothing when it failed or printed only
/// whitespace, else its output trimmed.
pub open spec fn spec_git_output(success: bool, stdout: Seq<char>) -> Option<Seq<char>> {
    if !success || trim(stdout).len() == 0 {
        None
    } else {
        Some(trim(stdout))
    }
}

/// The value of a git command from its exit status and (lossily decoded) output.
pub fn git_output_value(success: bool, stdout: &str) -> (r: Option<String>)
    ensures
        match r {
            Some(v) => spec_git_output(success, stdout@) == Some(v@),
            None => spec_git_output(success, stdout@) is None,
        },
{
    if !success {
        return None;
    }
    let cs = chars_of(stdout);
    let (lo, hi) = trim_bounds(&cs);
    if lo == hi {
        None
    } else {
        Some(string_from_chars(&cs, lo, hi))
    }
}

/// The current branch: what `symbolic_ref` finds, and when it finds nothing,
/// what `rev_parse` finds (which is asked only then).
pub fn current_branch_from_cli<F, G>(symbolic_ref: F, rev_parse: G) -> (r: Option<String>) where
    F: FnOnce() -> Option<String>,
    G: FnOnce() -> Option<String>,

    requires
        symbolic_ref.requires(()),
        rev_parse.requires(()),
    ensures
        (symbolic_ref.ensures((), r) && r is Some) || (symbolic_ref.ensures((), None) && rev_parse.ensures((), r)),
{
    match symbolic_ref() {
        Some(name) => Some(name),
        None => rev_parse(),
    }
}

/// The branch (`HEAD` when none was found) and the change flags (none when they
/// were not gathered).
pub fn branch_and_status(branch: Option<String>, status: Option<GitStatus>) -> (r: (
    String,
    GitStatus,
))
    ensures
        r.0@ == (match branch {
            Some(b) => b@,
            None => "HEAD"@,
        }),
        r.1 == (match status {
            Some(s) => s,
            None => GitStatus { modified: false, staged: false, untracked: false },
        }),
{
    let name = match branch {
        Some(b) => b,
        None => String::from_str("HEAD"),
    };
    let st = match status {
        Some(s) => s,
        None => GitStatus::empty(),
    };
    (name, st)
}

/// Whether `found` is what asking `symbolic_ref`, and then, when it finds
/// nothing, `rev_parse`, can give.
pub open spec fn cli_branch_found<F: FnOnce() -> Option<String>, G: FnOnce() -> Option<String>>(
    symbolic_ref: F,
    rev_parse: G,
    found: Option<String>,
) -> bool {
    (symbolic_ref.ensures((), found) && found is Some) || (symbolic_ref.ensures((), None)
        && rev_parse.ensures((), found))
}

/// The branch name for what the commands found: the name, or `HEAD`.
pub open spec fn branch_text(found: Option<String>) -> Seq<char> {
    match found {
        Some(b) => b@,
        None => "HEAD"@,
    }
}

/// The branch and change flags from the `git` command: the branch from
/// `symbolic_ref`, else from `rev_parse`, else `HEAD`; the flags from `slow`
/// when `need_status`, and none otherwise. `slow` may be called only when the
/// flags are needed.
pub fn branch_and_status_cli<F, G, S>(
    need_status: bool,
    symbolic_ref: F,
    rev_parse: G,
    slow: S,
) -> (r: (String, GitStatus)) where
    F: FnOnce() -> Option<String>,
    G: FnOnce() -> Option<String>,
    S: FnOnce() -> GitStatus,

    requires
        symbolic_ref.requires(()),
        rev_parse.requires(()),
        need_status ==> slow.requires(()),
    ensures
        exists|found: Option<String>|
            #[trigger] cli_branch_found(symbolic_ref, rev_parse, found) && r.0@ == branch_text(found),
        need_status ==> slow.ensures((), r.1),
        !need_status ==> r.1 == GitStatus::empty_spec(),
{
    let found = current_branch_from_cli(symbolic_ref, rev_parse);
    assert(cli_branch_found(symbolic_ref, rev_parse, found));
    let status = if need_status {
        Some(slow())
    } else {
        None
    };
    branch_and_status(found, status)
}

/// The branch and change flags of a repository. Where `repo` could be opened,
/// the branch comes from `branch_of` and, when `need_status`, the flags from
/// `fast`, or from `slow` where `fast` finds none; otherwise the `git`
/// command is asked, as in `branch_and_status_cli`. Without `need_status` the
/// flags are none on every path. The `requires` allow no other call.
pub fn gather_branch_and_status<R, B, Fa, Sl, F, G>(
    repo: Option<R>,
    need_status: bool,
    branch_of: B,
    fast: Fa,
    slow: Sl,
    symbolic_ref: F,
    rev_parse: G,
) -> (r: (String, GitStatus)) where
    B: FnOnce(&R) -> String,
    Fa: FnOnce(&R) -> Option<GitStatus>,
    Sl: FnOnce() -> GitStatus,
    F: FnOnce() -> Option<String>,
    G: FnOnce() -> Option<String>,

    requires
        match repo {
            Some(x) => branch_of.requires((&x,)) && (need_status ==> fast.requires((&x,))) && (
            need_status ==> forall|found: Option<GitStatus>|
                #[trigger] fast.ensures((&x,), found) && found is None ==> slow.requires(())),
            None => symbolic_ref.requires(()) && rev_parse.requires(()) && (need_status
                ==> slow.requires(())),
        },
    ensures
        !need_status ==> r.1 == GitStatus::empty_spec(),
        match repo {
            None => (exists|found: Option<String>|
                #[trigger] cli_branch_found(symbolic_ref, rev_parse, found) && r.0@ == branch_text(
                    found,
                )) && (need_status ==> slow.ensures((), r.1)),
            Some(x) => branch_of.ensures((&x,), r.0) && (need_status ==> exists|
                found: Option<GitStatus>,
            |
                #[trigger] fast.ensures((&x,), found) && match found {
                    Some(st) => r.1 == st,
                    None => slow.ensures((), r.1),
                }),
        },
{
    match repo {
        None => branch_and_status_cli(need_status, symbolic_ref, rev_parse, slow),
        Some(x) => {
            let name = branch_of(&x);
            if need_status {
                let found = fast(&x);
                let st = match found {
                    Some(st) => st,
                    None => slow(),
                };
                assert(fast.ensures((&x,), found));
                (name, st)
            } else {
                (name, GitStatus::empty())
            }
        },
    }
}

/// What a lookup of the head found: a short name, which may not be valid UTF-8.
pub enum HeadName {
    Utf8(String),
    NotUtf8,
}

/// The branch name of a repository: the short name of the checked-out
/// reference, else the name of an unborn head, else the abbreviated commit id,
/// else `HEAD`; a name that is not UTF-8 reads as `HEAD`.
pub fn current_branch_from_repo(
    head_ref: Option<HeadName>,
    head_name: Option<HeadName>,
    head_id: Option<String>,
) -> (r: String)
    ensures
        r@ == (match head_ref {
            Some(HeadName::Utf8(s)) => s@,
            Some(HeadName::NotUtf8) => "HEAD"@,
            None => match head_name {
                Some(HeadName::Utf8(s)) => s@,
                Some(HeadName::NotUtf8) => "HEAD"@,
                None => match head_id {
                    Some(id) => id@,
                    None => "HEAD"@,
                },
            },
        }),
{
    match head_ref {
        Some(HeadName::Utf8(s)) => s,
        Some(HeadName::NotUtf8) => String::from_str("HEAD"),
        None => match head_name {
            Some(HeadName::Utf8(s)) => s,
            Some(HeadName::NotUtf8) => String::from_str("HEAD"),
            None => match head_id {
                Some(id) => id,
                None => String::from_str("HEAD"),
            },
        },
    }
}

/// One item of a worktree status walk, as far as the flags care.
#[derive(Debug, Clone, Copy, PartialEq, Eq, Structural)]
pub enum StatusEvent {
    /// An untracked path; it counts unless it is a directory without any file
    /// below it.
    Untracked { counts: bool },
    /// A directory entry in another state (ignored, tracked, ...).
    OtherEntry,
    /// A path added with intent to add.
    IntentToAdd,
    /// An index entry whose stat information only needs refreshing.
    NeedsUpdate,
    /// A changed or conflicting index entry.
    Changed,
    /// A rename or copy between index and worktree.
    Rewrite,
    /// A difference between `HEAD` and the index.
    TreeIndex,
    /// The walk failed here.
    Failed,
}

/// The flag an event sets.
pub open spec fn event_flags(e: StatusEvent) -> GitStatus {
    GitStatus {
        modified: e == StatusEvent::Changed || e == StatusEvent::Rewrite,
        staged: e == StatusEvent::IntentToAdd || e == StatusEvent::TreeIndex,
        untracked: e == StatusEvent::Untracked { counts: true },
    }
}

pub open spec fn all_flags(s: GitStatus) -> bool {
    s.modified && s.staged && s.untracked
}

/// The flags gathered from `events` on top of `acc`: the walk stops once every
/// flag is set, and a failure before that gives no result.
pub open spec fn spec_status_from_events(acc: GitStatus, events: Seq<StatusEvent>) -> Option<
    GitStatus,
>
    decreases events.len(),
{
    if events.len() == 0 {
        Some(acc)
    } else if events[0] == StatusEvent::Failed {
        None
    } else {
        let e = event_flags(events[0]);
        let next = GitStatus {
            modified: acc.modified || e.modified,
            staged: acc.staged || e.staged,
            untracked: acc.untracked || e.untracked,
        };
        if all_flags(next) {
            Some(next)
        } else {
            spec_status_from_events(next, events.drop_first())
        }
    }
}

/// The flags after `acc` once the event `e` has been seen.
pub open spec fn with_event(acc: GitStatus, e: StatusEvent) -> GitStatus {
    GitStatus {
        modified: acc.modified || event_flags(e).modified,
        staged: acc.staged || event_flags(e).staged,
        untracked: acc.untracked || event_flags(e).untracked,
    }
}

/// What a status walk does after one more event.
#[derive(Debug, Clone, Copy, PartialEq, Eq, Structural)]
pub enum WalkStep {
    /// Go on with these flags.
    Continue(GitStatus),
    /// Every flag is set: stop with these flags.
    Done(GitStatus),
    /// The walk failed: it gives no result.
    Abort,
}

/// One step of a status walk: the flags gathered so far are `acc` and the
/// next event is `event`.
pub fn status_step(acc: GitStatus, event: StatusEvent) -> (r: WalkStep)
    ensures
        event == StatusEvent::Failed ==> r == WalkStep::Abort,
        event != StatusEvent::Failed && all_flags(with_event(acc, event)) ==> r == WalkStep::Done(
            with_event(acc, event),
        ),
        event != StatusEvent::Failed && !all_flags(with_event(acc, event)) ==> r
            == WalkStep::Continue(with_event(acc, event)),
{
    let flags = match event {
        StatusEvent::Failed => {
            return WalkStep::Abort;
        },
        StatusEvent::Untracked { counts } => GitStatus {
            modified: false,
            staged: false,
            untracked: counts,
        },
        StatusEvent::IntentToAdd | StatusEvent::TreeIndex => GitStatus {
            modified: false,
            staged: true,
            untracked: false,
        },
        StatusEvent::Changed | StatusEvent::Rewrite => GitStatus {
            modified: true,
            staged: false,
            untracked: false,
        },
        StatusEvent::OtherEntry | StatusEvent::NeedsUpdate => GitStatus::empty(),
    };
    assert(flags == event_flags(event));
    let mut st = acc;
    st.insert(flags);
    if st.modified && st.staged && st.untracked {
        WalkStep::Done(st)
    } else {
        WalkStep::Continue(st)
    }
}

/// The change flags from the items of a worktree status walk.
pub fn status_from_events(events: &Vec<StatusEvent>) -> (r: Option<GitStatus>)
    ensures
        r == spec_status_from_events(GitStatus::empty_spec(), events@),
{
    let mut st = GitStatus::empty();
    let mut i: usize = 0;
    assert(events@.skip(0) =~= events@);
    while i < events.len()
        invariant
            i <= events@.len(),
            spec_status_from_events(st, events@.skip(i as int)) == spec_status_from_events(
                GitStatus::empty_spec(),
                events@,
            ),
        decreases events@.len() - i,
    {
        let e = events[i];
        assert(events@.skip(i as int)[0] == e);
        assert(events@.skip(i as int).drop_first() =~= events@.skip(i + 1));
        match status_step(st, e) {
            WalkStep::Abort => {
                return None;
            },
            WalkStep::Done(next) => {
                return Some(next);
            },
            WalkStep::Continue(next) => {
                st = next;
            },
        }
        i = i + 1;
    }
    Some(st)
}

impl GitStatus {
    pub open spec fn empty_spec() -> GitStatus {
        GitStatus { modified: false, staged: false, untracked: false }
    }
}


/// The git prompt module.
pub struct GitModule;

impl GitModule {
    pub fn new() -> (r: GitModule) {
        GitModule
    }

    /// The file-system marker of a repository.
    pub fn fs_markers(&self) -> (r: Vec<&'static str>)
        ensures
            r@.len() == 1,
            r@[0]@ == ".git"@,
    {
        let mut v: Vec<&'static str> = Vec::new();
        v.push(".git");
        v
    }

    /// Renders the git segment for the repository at `repo_root` (`None` when
    /// no repository was found). `is_owned` tells whether the user owns the
    /// repository and is asked only for the owned-only formats; `fetch` gathers
    /// the branch and, when asked for them, the change flags, and is called only
    /// when the repository counts and `memo` knows nothing of it: the
    /// `requires` allow no other call. What `fetch` gathers is remembered in
    /// `memo`.
    pub fn render<O, F>(
        &self,
        format: &str,
        repo_root: Option<Vec<u8>>,
        memo: &mut GitMemo,
        is_owned: O,
        fetch: F,
    ) -> (r: Result<Option<String>, PromptError>) where
        O: FnOnce() -> bool,
        F: FnOnce(bool) -> (String, GitStatus),

        requires
            match (spec_parse_git_format(format@), repo_root) {
                (Some(f), Some(root)) => (f.owned_only ==> is_owned.requires(())) && ((
                f.owned_only ==> is_owned.ensures((), true)) && !old(memo).contents().dom().contains(
                    root@,
                ) ==> fetch.requires((f.mode == GitMode::Full,))),
                _ => true,
            },
        ensures
            spec_parse_git_format(format@) is None ==> (r matches Err(e) && is_invalid_format(
                e,
                "git"@,
                format@,
                git_valid_formats(),
            )) && final(memo).contents() == old(memo).contents(),
            spec_parse_git_format(format@) matches Some(f) ==> {
                ||| repo_root is None && r == Ok::<Option<String>, PromptError>(None)
                    && final(memo).contents() == old(memo).contents()
                ||| repo_root is Some && f.owned_only && is_owned.ensures((), false)
                    && r == Ok::<Option<String>, PromptError>(None) && final(memo).contents() == old(memo).contents()
                ||| repo_root matches Some(root) && (f.owned_only ==> is_owned.ensures((), true))
                    && old(memo).contents().dom().contains(root@) && (r matches Ok(Some(seg))
                    && seg@ == git_segment(f.mode, old(memo).contents()[root@]))
                    && final(memo).contents() == old(memo).contents()
                ||| repo_root matches Some(root) && (f.owned_only ==> is_owned.ensures((), true))
                    && !old(memo).contents().dom().contains(root@) && exists|
                    branch: String,
                    status: GitStatus,
                |
                    fetch.ensures((f.mode == GitMode::Full,), (branch, status))
                        && final(memo).contents() == old(memo).contents().insert(root@, info_of(branch, status))
                        && (r matches Ok(Some(seg)) && seg@ == git_segment(f.mode, info_of(branch, status)))
            },
    {
        let format = match parse_git_format(format) {
            Ok(f) => f,
            Err(e) => {
                return Err(e);
            },
        };
        let root = match repo_root {
            Some(p) => p,
            None => {
                return Ok(None);
            },
        };
        if format.owned_only && !is_owned() {
            return Ok(None);
        }
        if let Some(memoized) = memo.get(root.as_slice()) {
            return Ok(Some(build_segment(format.mode, &memoized)));
        }
        let need_status = format.mode == GitMode::Full;
        let (branch_name, status) = fetch(need_status);
        let info = GitInfo {
            branch: branch_name,
            has_changes: status.modified,
            has_staged: status.staged,
            has_untracked: status.untracked,
        };
        let segment = build_segment(format.mode, &info);
        let ghost b = info.branch;
        memo.insert(root, info);
        assert(info_of(b, status) == info);
        Ok(Some(segment))
    }
}


/// Once every flag is set, later events of the walk, failures included, do
/// not matter.
pub proof fn lemma_saturated_walk_ignores_rest(
    acc: GitStatus,
    events: Seq<StatusEvent>,
    k: int,
    more: Seq<StatusEvent>,
)
    requires
        0 <= k < events.len(),
        events[k] != StatusEvent::Failed,
        spec_status_from_events(acc, events.take(k + 1)) matches Some(st) && all_flags(st),
    ensures
        spec_status_from_events(acc, events.take(k + 1) + more) == spec_status_from_events(
            acc,
            events.take(k + 1),
        ),
    decreases k,
{
    let pre = events.take(k + 1);
    assert((pre + more)[0] == pre[0]);
    if pre[0] != StatusEvent::Failed {
        let e = event_flags(pre[0]);
        let next = GitStatus {
            modified: acc.modified || e.modified,
            staged: acc.staged || e.staged,
            untracked: acc.untracked || e.untracked,
        };
        if !all_flags(next) {
            assert(spec_status_from_events(acc, pre) == spec_status_from_events(
                next,
                pre.drop_first(),
            ));
            assert(k > 0) by {
                if k == 0 {
                    assert(pre.drop_first() =~= Seq::<StatusEvent>::empty());
                    assert(spec_status_from_events(next, pre.drop_first()) == Some(next));
                }
            }
            let tail = events.drop_first();
            assert(pre.drop_first() =~= tail.take(k));
            assert((pre + more).drop_first() =~= tail.take(k) + more);
            assert(tail[k - 1] == events[k]);
            lemma_saturated_walk_ignores_rest(next, tail, k - 1, more);
        }
    }
}

/// The full segment of remembered facts is the branch followed by `*` exactly
/// when changes were remembered, `+` exactly when staged changes were and `?`
/// exactly when untracked files were; the short segment is the branch alone.
pub proof fn lemma_segment_of_remembered_facts(info: GitInfo)
    ensures
        git_segment(GitMode::Full, info) == info.branch@ + (if info.has_changes {
            seq!['*']
        } else {
            Seq::<char>::empty()
        }) + (if info.has_staged {
            seq!['+']
        } else {
            Seq::<char>::empty()
        }) + (if info.has_untracked {
            seq!['?']
        } else {
            Seq::<char>::empty()
        }),
        git_segment(GitMode::Short, info) == info.branch@,
{
    let m = if info.has_changes {
        seq!['*']
    } else {
        Seq::<char>::empty()
    };
    let st = if info.has_staged {
        seq!['+']
    } else {
        Seq::<char>::empty()
    };
    let u = if info.has_untracked {
        seq!['?']
    } else {
        Seq::<char>::empty()
    };
    assert(git_segment(GitMode::Full, info) =~= info.branch@ + m + st + u);
}

/// What is remembered for a branch and its flags keeps each flag in its own
/// field, and the full segment is the branch followed by `*` exactly when the
/// tree has modified files, `+` exactly when it has staged changes and `?`
/// exactly when it has untracked files, in that order; the short segment is the
/// branch alone.
pub proof fn lemma_segment_marks_each_flag(branch: String, status: GitStatus)
    ensures
        info_of(branch, status).branch == branch,
        info_of(branch, status).has_changes == status.modified,
        info_of(branch, status).has_staged == status.staged,
        info_of(branch, status).has_untracked == status.untracked,
        git_segment(GitMode::Full, info_of(branch, status)) == branch@ + (if status.modified {
            seq!['*']
        } else {
            Seq::<char>::empty()
        }) + (if status.staged {
            seq!['+']
        } else {
            Seq::<char>::empty()
        }) + (if status.untracked {
            seq!['?']
        } else {
            Seq::<char>::empty()
        }),
        git_segment(GitMode::Short, info_of(branch, status)) == branch@,
{
    let m = if status.modified {
        seq!['*']
    } else {
        Seq::<char>::empty()
    };
    let st = if status.staged {
        seq!['+']
    } else {
        Seq::<char>::empty()
    };
    let u = if status.untracked {
        seq!['?']
    } else {
        Seq::<char>::empty()
    };
    assert(git_segment(GitMode::Full, info_of(branch, status)) =~= branch@ + m + st + u);
}

/// Rendering a repository twice in one render gives the same segment: the
/// second time reads what the first one remembered.
pub proof fn lemma_remembered_segment(
    contents: Map<Seq<u8>, GitInfo>,
    root: Seq<u8>,
    mode: GitMode,
    info: GitInfo,
)
    ensures
        contents.insert(root, info).dom().contains(root),
        git_segment(mode, contents.insert(root, info)[root]) == git_segment(mode, info),
{
}

} // verus!

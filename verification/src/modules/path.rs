//! The path module: the current directory shown relative to the home
//! directory, absolute, abbreviated, by its last name, or truncated to a
//! display width.
use vstd::prelude::*;
use vstd::string::*;
use crate::error::{is_invalid_format, PromptError};
use crate::text::{chars_of, parse_usize, push_char, slice_eq_str, spec_parse_usize};
use unicode_width::{UnicodeWidthChar, UnicodeWidthStr};

verus! {

/// The display width that `unicode_width` gives a character (`None` for a
/// control character).
pub uninterp spec fn char_display_width(c: char) -> Option<usize>;

/// The display width that `unicode_width` gives a string.
pub uninterp spec fn str_display_width(s: Seq<char>) -> usize;

/// `UnicodeWidthChar::width`: one column for printable ASCII, nothing for
/// control characters, and otherwise a width from the crate's tables, which
/// hold bytes.
#[verifier::external_body]
fn char_width(c: char) -> (r: Option<usize>)
    ensures
        r == char_display_width(c),
        0x20 <= (c as u32) < 0x7f ==> r == Some(1usize),
        (c as u32) < 0x20 || (0x7f <= (c as u32) < 0xa0) ==> r is None,
        r matches Some(w) ==> w <= 255,
{
    UnicodeWidthChar::width(c)
}

/// `UnicodeWidthStr::width`.
#[verifier::external_body]
fn str_width(s: &str) -> (r: usize)
    ensures
        r == str_display_width(s@),
{
    UnicodeWidthStr::width(s)
}

/// `Path::normalize_separators` on this platform, whose separator is `/`: the
/// text is left as it is.
pub fn normalize_separators(value: String) -> (r: String)
    ensures
        r == value,
{
    value
}

/// One component of a path.
pub struct PathComponent {
    /// The component's bytes (`/` for the root).
    pub bytes: Vec<u8>,
    /// The component decoded, invalid UTF-8 replaced by U+FFFD.
    pub text: String,
    /// Whether the bytes are valid UTF-8.
    pub is_utf8: bool,
}

/// What the path module needs to know of the current directory.
pub struct PathFacts {
    /// The current directory, decoded as text.
    pub current_display: String,
    /// The last name of the current directory, when it has one in UTF-8.
    pub file_name: Option<String>,
    /// The components of the canonical current directory (of the current
    /// directory itself when it has no canonical form); a normalised path, so
    /// it reads as its components joined by `/`.
    pub canonical: Vec<PathComponent>,
    /// The components of the canonical home directory, when it is known.
    pub home: Option<Vec<PathComponent>>,
}

/// `Path::strip_prefix`: what follows `prefix` in `path`, component by
/// component.
pub open spec fn strip_components(path: Seq<PathComponent>, prefix: Seq<PathComponent>) -> Option<
    Seq<PathComponent>,
> {
    if prefix.len() <= path.len() && forall|k: int|
        0 <= k < prefix.len() ==> (#[trigger] path[k]).bytes@ == prefix[k].bytes@ {
        Some(path.skip(prefix.len() as int))
    } else {
        None
    }
}

/// The components with `/` between them.
pub open spec fn join_components(cs: Seq<PathComponent>) -> Seq<char>
    decreases cs.len(),
{
    if cs.len() == 0 {
        Seq::empty()
    } else if cs.len() == 1 {
        cs[0].text@
    } else {
        join_components(cs.drop_last()) + "/"@ + cs.last().text@
    }
}

/// The part of the canonical current directory below the home directory, if
/// it lies there.
pub open spec fn below_home(facts: PathFacts) -> Option<Seq<PathComponent>> {
    match facts.home {
        Some(home) => strip_components(facts.canonical@, home@),
        None => None,
    }
}

/// The current directory relative to home: `~`, `~/rest`, or, outside home,
/// the current directory as it is.
pub open spec fn spec_relative_path(facts: PathFacts) -> Seq<char> {
    match below_home(facts) {
        Some(rest) => if rest.len() == 0 {
            "~"@
        } else {
            "~/"@ + join_components(rest)
        },
        None => facts.current_display@,
    }
}

/// How a directory above the last one is abbreviated: its first character (a
/// leading `/` of the root is not repeated) followed by `/`; `?/` when the name
/// is not UTF-8.
pub open spec fn abbreviated(c: PathComponent) -> Seq<char> {
    if c.is_utf8 {
        let first = if c.text@.len() > 0 {
            c.text@[0]
        } else {
            '?'
        };
        if first == '/' {
            "/"@
        } else {
            seq![first] + "/"@
        }
    } else {
        "?/"@
    }
}

/// Every directory abbreviated but the last, which is kept whole when it is
/// UTF-8 and left out otherwise.
pub open spec fn short_components(cs: Seq<PathComponent>) -> Seq<char>
    decreases cs.len(),
{
    if cs.len() == 0 {
        Seq::empty()
    } else if cs.len() == 1 {
        if cs[0].is_utf8 {
            cs[0].text@
        } else {
            Seq::empty()
        }
    } else {
        abbreviated(cs[0]) + short_components(cs.drop_first())
    }
}

/// The current directory with each directory above the last abbreviated to
/// one character, below `~/` when it lies inside home.
pub open spec fn spec_relative_short_path(facts: PathFacts) -> Seq<char> {
    match below_home(facts) {
        Some(rest) => if rest.len() == 0 {
            "~"@
        } else {
            "~/"@ + short_components(rest)
        },
        None => short_components(facts.canonical@),
    }
}

fn same_bytes(a: &Vec<u8>, b: &Vec<u8>) -> (r: bool)
    ensures
        r == (a@ == b@),
{
    if a.len() != b.len() {
        return false;
    }
    let mut i: usize = 0;
    while i < a.len()
        invariant
            a@.len() == b@.len(),
            i <= a@.len(),
            forall|k: int| 0 <= k < i ==> a@[k] == b@[k],
        decreases a@.len() - i,
    {
        if a[i] != b[i] {
            return false;
        }
        i = i + 1;
    }
    assert(a@ =~= b@);
    true
}

/// How many leading components `home` strips off the canonical directory.
fn strip_home(facts: &PathFacts) -> (r: Option<usize>)
    ensures
        match r {
            Some(k) => below_home(*facts) == Some(facts.canonical@.skip(k as int)) && k
                <= facts.canonical@.len(),
            None => below_home(*facts) is None,
        },
{
    match &facts.home {
        None => None,
        Some(home) => {
            if home.len() > facts.canonical.len() {
                return None;
            }
            let mut k: usize = 0;
            while k < home.len()
                invariant
                    facts.home == Some(*home),
                    home@.len() <= facts.canonical@.len(),
                    k <= home@.len(),
                    forall|j: int|
                        0 <= j < k ==> (#[trigger] facts.canonical@[j]).bytes@ == home@[j].bytes@,
                decreases home@.len() - k,
            {
                if !same_bytes(&facts.canonical[k].bytes, &home[k].bytes) {
                    assert(!((facts.canonical@[k as int]).bytes@ == home@[k as int].bytes@));
                    return None;
                }
                k = k + 1;
            }
            Some(home.len())
        },
    }
}

fn push_str_chars(buf: &mut String, s: &String)
    ensures
        final(buf)@ == old(buf)@ + s@,
{
    buf.append(s.as_str());
}

/// The components `cs[from..]` with `/` between them.
fn join_from(cs: &Vec<PathComponent>, from: usize) -> (r: String)
    requires
        from <= cs@.len(),
    ensures
        r@ == join_components(cs@.skip(from as int)),
{
    let mut out = String::new();
    let mut i: usize = from;
    assert(cs@.skip(from as int).take(0) =~= Seq::<PathComponent>::empty());
    while i < cs.len()
        invariant
            from <= i <= cs@.len(),
            out@ == join_components(cs@.skip(from as int).take(i - from)),
        decreases cs@.len() - i,
    {
        let ghost part = cs@.skip(from as int).take(i - from + 1);
        assert(part.drop_last() =~= cs@.skip(from as int).take(i - from));
        assert(part.last() == cs@[i as int]);
        if i > from {
            out.append("/");
        }
        push_str_chars(&mut out, &cs[i].text);
        i = i + 1;
    }
    assert(cs@.skip(from as int).take(i - from) =~= cs@.skip(from as int));
    out
}

/// The current directory relative to home (`~`, `~/rest`, or the directory
/// as it is when it lies outside home).
pub fn normalize_relative_path(facts: &PathFacts) -> (r: String)
    ensures
        r@ == spec_relative_path(*facts),
{
    match strip_home(facts) {
        Some(k) => {
            if k == facts.canonical.len() {
                return String::from_str("~");
            }
            let mut result = String::from_str("~/");
            let rest = join_from(&facts.canonical, k);
            result.append(rest.as_str());
            normalize_separators(result)
        },
        None => normalize_separators(facts.current_display.clone()),
    }
}

fn abbreviate(c: &PathComponent, out: &mut String)
    ensures
        final(out)@ == old(out)@ + abbreviated(*c),
{
    proof {
        reveal_strlit("/");
        reveal_strlit("?/");
    }
    let ghost start = out@;
    if c.is_utf8 {
        let cs = chars_of(c.text.as_str());
        let first = if cs.len() > 0 {
            cs[0]
        } else {
            '?'
        };
        if first != '/' {
            push_char(out, first);
        }
        push_char(out, '/');
    } else {
        push_char(out, '?');
        push_char(out, '/');
    }
    assert(out@ =~= start + abbreviated(*c));
}

proof fn lemma_short_components_split(cs: Seq<PathComponent>, k: int)
    requires
        0 <= k < cs.len(),
    ensures
        short_components(cs.skip(k)) == abbreviated(cs[k]) + short_components(cs.skip(k + 1))
            || (k == cs.len() - 1 && short_components(cs.skip(k)) == (if cs[k].is_utf8 {
            cs[k].text@
        } else {
            Seq::empty()
        })),
{
    assert(cs.skip(k)[0] == cs[k]);
    assert(cs.skip(k).drop_first() =~= cs.skip(k + 1));
}

/// `cs[from..]` abbreviated as the short path shows it, appended to `out`.
fn push_short_components(cs: &Vec<PathComponent>, from: usize, out: &mut String)
    requires
        from <= cs@.len(),
    ensures
        final(out)@ == old(out)@ + short_components(cs@.skip(from as int)),
{
    let n = cs.len();
    let ghost start = out@;
    if from == n {
        assert(cs@.skip(from as int).len() == 0);
        assert(out@ =~= start + short_components(cs@.skip(from as int)));
        return ;
    }
    let mut i: usize = from;
    assert(start =~= start + Seq::<char>::empty());
    while i + 1 < n
        invariant
            from <= i < n == cs@.len(),
            start + short_components(cs@.skip(from as int)) == out@ + short_components(
                cs@.skip(i as int),
            ),
        decreases n - i,
    {
        proof {
            lemma_short_components_split(cs@, i as int);
            vstd::seq_lib::lemma_concat_associative(
                out@,
                abbreviated(cs@[i as int]),
                short_components(cs@.skip(i + 1)),
            );
        }
        abbreviate(&cs[i], out);
        i = i + 1;
    }
    assert(cs@.skip(i as int).len() == 1);
    assert(cs@.skip(i as int)[0] == cs@[i as int]);
    if cs[i].is_utf8 {
        push_str_chars(out, &cs[i].text);
    } else {
        assert(out@ =~= out@ + Seq::<char>::empty());
    }
}

/// The current directory with every directory above the last abbreviated to
/// its first character, below `~/` when it lies inside home.
pub fn normalize_relative_short_path(facts: &PathFacts) -> (r: String)
    ensures
        r@ == spec_relative_short_path(*facts),
{
    let mut result = String::new();
    match strip_home(facts) {
        Some(k) => {
            if k == facts.canonical.len() {
                return String::from_str("~");
            }
            result.append("~/");
            push_short_components(&facts.canonical, k, &mut result);
        },
        None => {
            assert(facts.canonical@.skip(0) =~= facts.canonical@);
            push_short_components(&facts.canonical, 0, &mut result);
        },
    }
    normalize_separators(result)
}


/// The width a character counts for while truncating: control characters
/// count nothing.
pub open spec fn counted_width(c: char) -> int {
    match char_display_width(c) {
        Some(w) => w as int,
        None => 0,
    }
}

/// The longest prefix of `s` whose characters fit, one by one, in `budget`
/// columns: the first character that does not fit ends it.
pub open spec fn truncate_to_width(s: Seq<char>, budget: int) -> Seq<char>
    decreases s.len(),
{
    if s.len() == 0 {
        s
    } else if counted_width(s[0]) > budget {
        Seq::empty()
    } else {
        seq![s[0]] + truncate_to_width(s.drop_first(), budget - counted_width(s[0]))
    }
}

/// `path` when it fits in `max` columns; otherwise as much of it as fits in
/// `max - 3` columns followed by `...`.
pub open spec fn spec_truncated(path: Seq<char>, max: usize) -> Seq<char> {
    if str_display_width(path) <= max {
        path
    } else {
        truncate_to_width(
            path,
            if max >= 3 {
                max - 3
            } else {
                0
            },
        ) + "..."@
    }
}

/// The width limit of a `truncate:N` format: `N`, or 30 when it does not
/// parse.
pub open spec fn truncate_limit(format: Seq<char>) -> usize {
    match spec_parse_usize(format.skip(9)) {
        Some(n) => n,
        None => 30,
    }
}

pub open spec fn is_truncate_format(format: Seq<char>) -> bool {
    format.len() >= 9 && format.take(9) == "truncate:"@
}

/// The formats that the path module lists in its error.
pub open spec fn path_valid_formats() -> Seq<char> {
    "relative, r, absolute, a, f, short, s, truncate:N"@
}

/// What the path module shows for `format` in the current directory `facts`:
/// `None` for an unknown format.
pub open spec fn spec_path_output(format: Seq<char>, facts: PathFacts) -> Option<Seq<char>> {
    if format.len() == 0 || format == "relative"@ || format == "r"@ {
        Some(spec_relative_path(facts))
    } else if format == "absolute"@ || format == "a"@ || format == "f"@ {
        Some(facts.current_display@)
    } else if format == "rs"@ {
        Some(spec_relative_short_path(facts))
    } else if format == "short"@ || format == "s"@ {
        Some(
            match facts.file_name {
                Some(n) => n@,
                None => "."@,
            },
        )
    } else if is_truncate_format(format) {
        Some(spec_truncated(spec_relative_path(facts), truncate_limit(format)))
    } else {
        None
    }
}

fn truncate_path(path: &String, max_width: usize) -> (r: String)
    ensures
        r@ == spec_truncated(path@, max_width),
{
    let width = str_width(path.as_str());
    if width <= max_width {
        return path.clone();
    }
    let target: usize = if max_width >= 3 {
        max_width - 3
    } else {
        0
    };
    let cs = chars_of(path.as_str());
    let mut truncated = String::new();
    let mut current_width: usize = 0;
    let mut i: usize = 0;
    assert(cs@.skip(0) =~= cs@);
    while i < cs.len()
        invariant
            i <= cs@.len(),
            current_width <= target,
            truncated@ + truncate_to_width(cs@.skip(i as int), target - current_width)
                == truncate_to_width(cs@, target as int),
        ensures
            truncated@ == truncate_to_width(cs@, target as int),
        decreases cs@.len() - i,
    {
        let ch = cs[i];
        let ghost rest = cs@.skip(i as int);
        assert(rest[0] == ch);
        assert(rest.drop_first() =~= cs@.skip(i + 1));
        let ch_width: usize = match char_width(ch) {
            Some(w) => w,
            None => 0,
        };
        if ch_width > target - current_width {
            assert(truncate_to_width(rest, target - current_width) =~= Seq::<char>::empty());
            assert(truncated@ =~= truncated@ + Seq::<char>::empty());
            break;
        }
        if i + 1 == cs.len() {
            assert(cs@.skip(i + 1).len() == 0);
        }
        let ghost before = truncated@;
        push_char(&mut truncated, ch);
        proof {
            vstd::seq_lib::lemma_concat_associative(
                before,
                seq![ch],
                truncate_to_width(cs@.skip(i + 1), target - current_width - ch_width),
            );
        }
        current_width = current_width + ch_width;
        i = i + 1;
    }
    truncated.append("...");
    assert(truncated@ == truncate_to_width(path@, target as int) + "..."@);
    truncated
}

/// The path prompt module.
pub struct PathModule;

impl PathModule {
    pub fn new() -> (r: PathModule) {
        PathModule
    }

    /// Renders the current directory described by `facts` (`None` when it
    /// could not be found) in `format`.
    pub fn render(&self, format: &str, facts: Option<&PathFacts>) -> (r: Result<
        Option<String>,
        PromptError,
    >)
        ensures
            facts is None ==> r == Ok::<Option<String>, PromptError>(None),
            facts matches Some(f) ==> match spec_path_output(format@, *f) {
                Some(out) => r matches Ok(Some(s)) && s@ == out,
                None => r matches Err(e) && is_invalid_format(
                    e,
                    "path"@,
                    format@,
                    path_valid_formats(),
                ),
            },
    {
        let facts = match facts {
            Some(f) => f,
            None => {
                return Ok(None);
            },
        };
        let cs = chars_of(format);
        let n = cs.len();
        assert(cs@.subrange(0, n as int) =~= cs@);
        if n == 0 || slice_eq_str(&cs, 0, n, "relative") || slice_eq_str(&cs, 0, n, "r") {
            Ok(Some(normalize_relative_path(facts)))
        } else if slice_eq_str(&cs, 0, n, "absolute") || slice_eq_str(&cs, 0, n, "a")
            || slice_eq_str(&cs, 0, n, "f") {
            Ok(Some(facts.current_display.clone()))
        } else if slice_eq_str(&cs, 0, n, "rs") {
            Ok(Some(normalize_relative_short_path(facts)))
        } else if slice_eq_str(&cs, 0, n, "short") || slice_eq_str(&cs, 0, n, "s") {
            match &facts.file_name {
                Some(name) => Ok(Some(name.clone())),
                None => Ok(Some(String::from_str("."))),
            }
        } else if n >= 9 && slice_eq_str(&cs, 0, 9, "truncate:") {
            assert(cs@.subrange(0, 9) =~= cs@.take(9));
            assert(cs@.subrange(9, n as int) =~= cs@.skip(9));
            let max_width = match parse_usize(&cs, 9, n) {
                Some(m) => m,
                None => 30,
            };
            let path = normalize_relative_path(facts);
            Ok(Some(truncate_path(&path, max_width)))
        } else {
            proof {
                if n >= 9 {
                    assert(cs@.subrange(0, 9) =~= cs@.take(9));
                }
            }
            Err(
                PromptError::invalid_format(
                    "path",
                    format,
                    "relative, r, absolute, a, f, short, s, truncate:N",
                ),
            )
        }
    }
}


/// The total counted width of `s`.
pub open spec fn counted_total(s: Seq<char>) -> int
    decreases s.len(),
{
    if s.len() == 0 {
        0
    } else {
        counted_width(s[0]) + counted_total(s.drop_first())
    }
}

/// The formats show: `absolute`, `a` and `f` the current directory exactly as
/// it is, whatever the home directory; `relative`, `r` and the empty format
/// the path relative to home; `short` and `s` the last name (`.` when there is
/// none); `rs` the abbreviated path.
pub proof fn lemma_formats_show_their_view(facts: PathFacts)
    ensures
        spec_path_output("absolute"@, facts) == Some(facts.current_display@),
        spec_path_output("a"@, facts) == Some(facts.current_display@),
        spec_path_output("f"@, facts) == Some(facts.current_display@),
        spec_path_output(Seq::empty(), facts) == Some(spec_relative_path(facts)),
        spec_path_output("relative"@, facts) == Some(spec_relative_path(facts)),
        spec_path_output("r"@, facts) == Some(spec_relative_path(facts)),
        spec_path_output("rs"@, facts) == Some(spec_relative_short_path(facts)),
        spec_path_output("short"@, facts) == spec_path_output("s"@, facts),
        spec_path_output("s"@, facts) == Some(
            match facts.file_name {
                Some(n) => n@,
                None => "."@,
            },
        ),
{
    reveal_strlit("absolute");
    reveal_strlit("a");
    reveal_strlit("f");
    reveal_strlit("relative");
    reveal_strlit("r");
    reveal_strlit("rs");
    reveal_strlit("short");
    reveal_strlit("s");
    assert("absolute"@ != "relative"@) by {
        assert("absolute"@[0] != "relative"@[0]);
    }
    assert("a"@ != "r"@) by {
        assert("a"@[0] != "r"@[0]);
    }
    assert("f"@ != "r"@) by {
        assert("f"@[0] != "r"@[0]);
    }
    assert("rs"@ != "r"@) by {
        assert("rs"@.len() != "r"@.len());
    }
    assert("short"@ != "absolute"@) by {
        assert("short"@.len() != "absolute"@.len());
    }
    assert("s"@ != "r"@ && "s"@ != "a"@ && "s"@ != "f"@) by {
        assert("s"@[0] != "r"@[0] && "s"@[0] != "a"@[0] && "s"@[0] != "f"@[0]);
    }
    assert("short"@ != "relative"@) by {
        assert("short"@.len() != "relative"@.len());
    }
    assert("short"@ != "rs"@) by {
        assert("short"@.len() != "rs"@.len());
    }
}

/// Truncating keeps the longest prefix of the text whose characters fit in the
/// budget: it fits, and one more character would not.
pub proof fn lemma_truncation_is_longest_fitting_prefix(s: Seq<char>, budget: int)
    requires
        budget >= 0,
    ensures
        truncate_to_width(s, budget).len() <= s.len(),
        truncate_to_width(s, budget) == s.take(truncate_to_width(s, budget).len() as int),
        counted_total(truncate_to_width(s, budget)) <= budget,
        truncate_to_width(s, budget).len() < s.len() ==> counted_total(
            s.take(truncate_to_width(s, budget).len() as int + 1),
        ) > budget,
    decreases s.len(),
{
    if s.len() > 0 && counted_width(s[0]) <= budget {
        let rest = s.drop_first();
        let t = truncate_to_width(rest, budget - counted_width(s[0]));
        assert(counted_width(s[0]) >= 0) by {
            if let Some(w) = char_display_width(s[0]) {
            }
        }
        lemma_truncation_is_longest_fitting_prefix(rest, budget - counted_width(s[0]));
        let whole = seq![s[0]] + t;
        assert(whole.drop_first() =~= t);
        assert(whole[0] == s[0]);
        assert(whole =~= s.take(whole.len() as int));
        if t.len() < rest.len() {
            let longer = s.take(whole.len() as int + 1);
            assert(longer.drop_first() =~= rest.take(t.len() as int + 1));
            assert(longer[0] == s[0]);
        }
    } else if s.len() > 0 {
        assert(truncate_to_width(s, budget) =~= s.take(0));
        let one = s.take(1);
        assert(one.drop_first() =~= Seq::<char>::empty());
        assert(one[0] == s[0]);
    }
}

} // verus!

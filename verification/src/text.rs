//! Character-level helpers shared by the modules: views of strings as
//! character vectors, literal comparison, trimming and splitting.
use vstd::prelude::*;
use vstd::string::*;

verus! {

/// The characters of `s`, in order.
pub fn chars_of(s: &str) -> (v: Vec<char>)
    ensures
        v@ == s@,
{
    let n = s.unicode_len();
    let mut v: Vec<char> = Vec::new();
    let mut i: usize = 0;
    while i < n
        invariant
            n == s@.len(),
            i <= n,
            v@ == s@.take(i as int),
        decreases n - i,
    {
        let c = s.get_char(i);
        v.push(c);
        i = i + 1;
        assert(v@ =~= s@.take(i as int));
    }
    assert(v@ =~= s@);
    v
}

/// Appends one character to a string (`String::push`).
#[verifier::external_body]
pub fn push_char(s: &mut String, c: char)
    ensures
        final(s)@ == old(s)@.push(c),
{
    s.push(c);
}

/// A string holding exactly the characters `cs[lo..hi]`.
pub fn string_from_chars(cs: &Vec<char>, lo: usize, hi: usize) -> (r: String)
    requires
        lo <= hi <= cs@.len(),
    ensures
        r@ == cs@.subrange(lo as int, hi as int),
{
    let mut r = String::new();
    let mut i: usize = lo;
    while i < hi
        invariant
            lo <= i <= hi <= cs@.len(),
            r@ == cs@.subrange(lo as int, i as int),
        decreases hi - i,
    {
        push_char(&mut r, cs[i]);
        i = i + 1;
        assert(r@ =~= cs@.subrange(lo as int, i as int));
    }
    r
}

/// Whether `cs[lo..hi]` equals the characters of the literal `lit`.
pub fn slice_eq_str(cs: &Vec<char>, lo: usize, hi: usize, lit: &str) -> (r: bool)
    requires
        lo <= hi <= cs@.len(),
    ensures
        r == (cs@.subrange(lo as int, hi as int) == lit@),
{
    let n = lit.unicode_len();
    if hi - lo != n {
        proof {
            assert(cs@.subrange(lo as int, hi as int).len() != lit@.len());
        }
        return false;
    }
    let mut i: usize = 0;
    while i < n
        invariant
            lo <= hi <= cs@.len(),
            hi - lo == n,
            n == lit@.len(),
            i <= n,
            forall|k: int| 0 <= k < i ==> cs@[lo + k] == lit@[k],
        decreases n - i,
    {
        if cs[lo + i] != lit.get_char(i) {
            proof {
                assert(cs@.subrange(lo as int, hi as int)[i as int] != lit@[i as int]);
            }
            return false;
        }
        i = i + 1;
    }
    assert(cs@.subrange(lo as int, hi as int) =~= lit@);
    true
}


/// The pieces of `s` between occurrences of `sep`, as `str::split` yields them:
/// there is always at least one piece, and adjacent separators give empty pieces.
pub open spec fn split_on(s: Seq<char>, sep: char) -> Seq<Seq<char>>
    decreases s.len(),
{
    if s.len() == 0 {
        seq![Seq::<char>::empty()]
    } else {
        let rest = split_on(s.drop_last(), sep);
        if s.last() == sep {
            rest.push(Seq::<char>::empty())
        } else {
            rest.update(rest.len() - 1, rest.last().push(s.last()))
        }
    }
}

pub proof fn lemma_split_on_nonempty(s: Seq<char>, sep: char)
    ensures
        split_on(s, sep).len() >= 1,
    decreases s.len(),
{
    if s.len() > 0 {
        lemma_split_on_nonempty(s.drop_last(), sep);
    }
}

/// Text without the separator splits into itself alone.
pub proof fn lemma_split_on_without_sep(s: Seq<char>, sep: char)
    requires
        forall|i: int| 0 <= i < s.len() ==> s[i] != sep,
    ensures
        split_on(s, sep) == seq![s],
    decreases s.len(),
{
    if s.len() > 0 {
        assert forall|i: int| 0 <= i < s.drop_last().len() implies s.drop_last()[i] != sep by {
            assert(s.drop_last()[i] == s[i]);
        }
        lemma_split_on_without_sep(s.drop_last(), sep);
        assert(s.last() == s[s.len() - 1]);
        assert(s.drop_last().push(s.last()) =~= s);
        let rest = seq![s.drop_last()];
        assert(rest.len() == 1);
        assert(rest.update(0, rest.last().push(s.last())) =~= seq![s]);
    } else {
        assert(s =~= Seq::<char>::empty());
    }
}

/// Splitting text joined by a separator gives the parts of both sides.
pub proof fn lemma_split_on_join(a: Seq<char>, b: Seq<char>, sep: char)
    ensures
        split_on(a + seq![sep] + b, sep) == split_on(a, sep) + split_on(b, sep),
    decreases b.len(),
{
    let x = a + seq![sep] + b;
    lemma_split_on_nonempty(a, sep);
    if b.len() == 0 {
        assert(x.drop_last() =~= a);
        assert(split_on(b, sep) == seq![Seq::<char>::empty()]);
        assert(split_on(x, sep) =~= split_on(a, sep) + split_on(b, sep));
    } else {
        assert(x.drop_last() =~= a + seq![sep] + b.drop_last());
        assert(x.last() == b.last());
        lemma_split_on_join(a, b.drop_last(), sep);
        lemma_split_on_nonempty(b.drop_last(), sep);
        let sa = split_on(a, sep);
        let sb = split_on(b.drop_last(), sep);
        let rest = split_on(x.drop_last(), sep);
        assert(rest == sa + sb);
        if b.last() == sep {
            assert(split_on(x, sep) =~= sa + sb.push(Seq::<char>::empty()));
        } else {
            assert(rest.last() == sb.last());
            assert(split_on(x, sep) =~= sa + sb.update(sb.len() - 1, sb.last().push(b.last())));
        }
    }
}

/// The views of a vector of character vectors.
pub open spec fn views(parts: Seq<Vec<char>>) -> Seq<Seq<char>> {
    parts.map_values(|v: Vec<char>| v@)
}

/// Splits `cs` at every occurrence of `sep`.
pub fn split_chars(cs: &Vec<char>, sep: char) -> (parts: Vec<Vec<char>>)
    ensures
        views(parts@) == split_on(cs@, sep),
{
    let mut parts: Vec<Vec<char>> = Vec::new();
    let mut cur: Vec<char> = Vec::new();
    let mut i: usize = 0;
    assert(cs@.take(0) =~= Seq::<char>::empty());
    assert(views(parts@).push(cur@) =~= split_on(cs@.take(0), sep));
    while i < cs.len()
        invariant
            i <= cs@.len(),
            views(parts@).push(cur@) == split_on(cs@.take(i as int), sep),
        decreases cs@.len() - i,
    {
        let c = cs[i];
        let ghost prev = cs@.take(i as int);
        assert(cs@.take(i as int + 1).drop_last() =~= prev);
        assert(cs@.take(i as int + 1).last() == c);
        proof {
            lemma_split_on_nonempty(prev, sep);
        }
        if c == sep {
            let ghost old_parts = parts@;
            let ghost old_cur = cur@;
            parts.push(cur);
            cur = Vec::new();
            assert(views(parts@) =~= views(old_parts).push(old_cur));
            assert(views(parts@).push(cur@) =~= split_on(cs@.take(i as int + 1), sep));
        } else {
            let ghost old_cur = cur@;
            cur.push(c);
            assert(views(parts@).push(cur@) =~= split_on(cs@.take(i as int + 1), sep));
        }
        i = i + 1;
    }
    assert(cs@.take(cs@.len() as int) =~= cs@);
    let ghost before = parts@;
    parts.push(cur);
    assert(views(parts@) =~= views(before).push(cur@));
    parts
}

/// `char::is_whitespace`: the Unicode `White_Space` property.
pub open spec fn is_whitespace(c: char) -> bool {
    let u = c as u32;
    ||| 0x09 <= u <= 0x0d
    ||| u == 0x20
    ||| u == 0x85
    ||| u == 0xa0
    ||| u == 0x1680
    ||| 0x2000 <= u <= 0x200a
    ||| u == 0x2028
    ||| u == 0x2029
    ||| u == 0x202f
    ||| u == 0x205f
    ||| u == 0x3000
}

pub fn char_is_whitespace(c: char) -> (r: bool)
    ensures
        r == is_whitespace(c),
{
    let u = c as u32;
    (0x09 <= u && u <= 0x0d) || u == 0x20 || u == 0x85 || u == 0xa0 || u == 0x1680 || (0x2000
        <= u && u <= 0x200a) || u == 0x2028 || u == 0x2029 || u == 0x202f || u == 0x205f || u
        == 0x3000
}

/// Number of leading whitespace characters of `s`.
pub open spec fn leading_ws(s: Seq<char>) -> nat
    decreases s.len(),
{
    if s.len() > 0 && is_whitespace(s[0]) {
        1 + leading_ws(s.drop_first())
    } else {
        0
    }
}

/// Number of trailing whitespace characters of `s`.
pub open spec fn trailing_ws(s: Seq<char>) -> nat
    decreases s.len(),
{
    if s.len() > 0 && is_whitespace(s.last()) {
        1 + trailing_ws(s.drop_last())
    } else {
        0
    }
}

/// `str::trim`: `s` without its leading and trailing whitespace.
pub open spec fn trim(s: Seq<char>) -> Seq<char> {
    let t = s.skip(leading_ws(s) as int);
    t.take(t.len() - trailing_ws(t))
}

pub proof fn lemma_leading_ws(s: Seq<char>, i: int)
    requires
        0 <= i <= s.len(),
        forall|k: int| 0 <= k < i ==> is_whitespace(s[k]),
        i == s.len() || !is_whitespace(s[i]),
    ensures
        leading_ws(s) == i,
    decreases s.len(),
{
    if s.len() > 0 && is_whitespace(s[0]) {
        assert forall|k: int| 0 <= k < i - 1 implies is_whitespace(s.drop_first()[k]) by {
            assert(s.drop_first()[k] == s[k + 1]);
        }
        if i < s.len() {
            assert(s.drop_first()[i - 1] == s[i]);
        }
        lemma_leading_ws(s.drop_first(), i - 1);
    }
}

pub proof fn lemma_trailing_ws(s: Seq<char>, j: int)
    requires
        0 <= j <= s.len(),
        forall|k: int| j <= k < s.len() ==> is_whitespace(s[k]),
        j == 0 || !is_whitespace(s[j - 1]),
    ensures
        trailing_ws(s) == s.len() - j,
    decreases s.len(),
{
    if s.len() > 0 && is_whitespace(s.last()) {
        assert forall|k: int| j <= k < s.len() - 1 implies is_whitespace(s.drop_last()[k]) by {
            assert(s.drop_last()[k] == s[k]);
        }
        if j > 0 {
            assert(s.drop_last()[j - 1] == s[j - 1]);
        }
        lemma_trailing_ws(s.drop_last(), j);
    }
}

/// The bounds `(lo, hi)` of `cs` once leading and trailing whitespace is removed.
pub fn trim_bounds(cs: &Vec<char>) -> (r: (usize, usize))
    ensures
        r.0 <= r.1 <= cs@.len(),
        cs@.subrange(r.0 as int, r.1 as int) == trim(cs@),
{
    let n = cs.len();
    let mut lo: usize = 0;
    while lo < n && char_is_whitespace(cs[lo])
        invariant
            lo <= n == cs@.len(),
            forall|k: int| 0 <= k < lo ==> is_whitespace(cs@[k]),
        decreases n - lo,
    {
        lo = lo + 1;
    }
    proof {
        lemma_leading_ws(cs@, lo as int);
    }
    let mut hi: usize = n;
    while hi > lo && char_is_whitespace(cs[hi - 1])
        invariant
            lo <= hi <= n == cs@.len(),
            forall|k: int| hi <= k < n ==> is_whitespace(cs@[k]),
        decreases hi - lo,
    {
        hi = hi - 1;
    }
    proof {
        let t = cs@.skip(lo as int);
        assert forall|k: int| hi - lo <= k < t.len() implies is_whitespace(t[k]) by {
            assert(t[k] == cs@[lo + k]);
        }
        if hi > lo {
            assert(t[hi - lo - 1] == cs@[hi - 1]);
        }
        lemma_trailing_ws(t, hi - lo);
        assert(t.take(t.len() - trailing_ws(t)) =~= cs@.subrange(lo as int, hi as int));
    }
    (lo, hi)
}

/// `char::to_ascii_lowercase`.
pub open spec fn ascii_lower(c: char) -> char {
    if 'A' <= c && c <= 'Z' {
        ((c as u32) + 32) as char
    } else {
        c
    }
}

/// `str::to_ascii_lowercase`, character by character.
pub open spec fn ascii_lower_all(s: Seq<char>) -> Seq<char> {
    s.map_values(|c: char| ascii_lower(c))
}

pub fn char_ascii_lower(c: char) -> (r: char)
    ensures
        r == ascii_lower(c),
{
    if 'A' <= c && c <= 'Z' {
        let u = (c as u32) + 32;
        let r = (u as u8) as char;
        assert(r == ((c as u32) + 32) as char) by {
            assert(u < 128);
        }
        r
    } else {
        c
    }
}

/// The number of bytes of `c` in UTF-8.
pub open spec fn char_utf8_len(c: char) -> nat {
    let u = c as u32;
    if u < 0x80 {
        1
    } else if u < 0x800 {
        2
    } else if u < 0x10000 {
        3
    } else {
        4
    }
}

/// The number of bytes of `s` in UTF-8 (`str::len`).
pub open spec fn utf8_len(s: Seq<char>) -> nat
    decreases s.len(),
{
    if s.len() == 0 {
        0
    } else {
        utf8_len(s.drop_last()) + char_utf8_len(s.last())
    }
}

pub fn char_len_utf8(c: char) -> (r: usize)
    ensures
        r == char_utf8_len(c),
{
    let u = c as u32;
    if u < 0x80 {
        1
    } else if u < 0x800 {
        2
    } else if u < 0x10000 {
        3
    } else {
        4
    }
}

/// The character index at which the first `k` bytes of `s` end, when byte `k`
/// falls between two characters (`str::is_char_boundary`), and `None` otherwise.
pub open spec fn byte_boundary(s: Seq<char>, k: int) -> Option<int> {
    if exists|i: int| 0 <= i <= s.len() && utf8_len(#[trigger] s.take(i)) == k {
        Some(choose|i: int| 0 <= i <= s.len() && utf8_len(#[trigger] s.take(i)) == k)
    } else {
        None
    }
}

pub proof fn lemma_utf8_len_step(s: Seq<char>, k: int)
    requires
        0 <= k < s.len(),
    ensures
        utf8_len(s.take(k + 1)) == utf8_len(s.take(k)) + char_utf8_len(s[k]),
{
    assert(s.take(k + 1).drop_last() =~= s.take(k));
}

/// Byte offsets of prefixes grow strictly with the number of characters.
pub proof fn lemma_utf8_len_strict(s: Seq<char>, i: int, j: int)
    requires
        0 <= i < j <= s.len(),
    ensures
        utf8_len(s.take(i)) < utf8_len(s.take(j)),
    decreases j - i,
{
    lemma_utf8_len_step(s, j - 1);
    if i < j - 1 {
        lemma_utf8_len_strict(s, i, j - 1);
    }
}

/// The boundary found by scanning: `i` characters end exactly at byte `k`.
pub proof fn lemma_byte_boundary_at(s: Seq<char>, k: int, i: int)
    requires
        0 <= i <= s.len(),
        utf8_len(s.take(i)) == k,
    ensures
        byte_boundary(s, k) == Some(i),
{
    assert(exists|x: int| 0 <= x <= s.len() && utf8_len(#[trigger] s.take(x)) == k) by {
        assert(utf8_len(s.take(i)) == k);
    }
    let c = choose|x: int| 0 <= x <= s.len() && utf8_len(#[trigger] s.take(x)) == k;
    if c < i {
        lemma_utf8_len_strict(s, c, i);
    } else if i < c {
        lemma_utf8_len_strict(s, i, c);
    }
}

/// No prefix of `s` ends at byte `k` when the scan stepped over it.
pub proof fn lemma_byte_boundary_none(s: Seq<char>, k: int, i: int)
    requires
        0 <= i <= s.len(),
        utf8_len(s.take(i)) > k,
        i == 0 || utf8_len(s.take(i - 1)) < k,
    ensures
        byte_boundary(s, k) is None,
{
    if exists|x: int| 0 <= x <= s.len() && utf8_len(#[trigger] s.take(x)) == k {
        let c = choose|x: int| 0 <= x <= s.len() && utf8_len(#[trigger] s.take(x)) == k;
        if c < i {
            if c < i - 1 {
                lemma_utf8_len_strict(s, c, i - 1);
            }
        } else if i < c {
            lemma_utf8_len_strict(s, i, c);
        }
    }
}

/// Where `k` bytes into `cs[lo..hi]` fall: `Some(i)` when the first `i`
/// characters take exactly `k` bytes, `None` when `k` splits a character or lies
/// past the end.
pub fn find_byte_boundary(cs: &Vec<char>, lo: usize, hi: usize, k: usize) -> (r: Option<usize>)
    requires
        lo <= hi <= cs@.len(),
    ensures
        match r {
            Some(i) => byte_boundary(cs@.subrange(lo as int, hi as int), k as int) == Some(
                i as int,
            ) && i <= hi - lo,
            None => byte_boundary(cs@.subrange(lo as int, hi as int), k as int) is None,
        },
{
    let ghost s = cs@.subrange(lo as int, hi as int);
    let mut i: usize = 0;
    let mut total: usize = 0;
    assert(s.take(0) =~= Seq::<char>::empty());
    while total < k && i < hi - lo
        invariant
            lo <= hi <= cs@.len(),
            s == cs@.subrange(lo as int, hi as int),
            i <= hi - lo,
            total == utf8_len(s.take(i as int)),
            total <= k,
        decreases hi - lo - i,
    {
        proof {
            lemma_utf8_len_step(s, i as int);
        }
        let w = char_len_utf8(cs[lo + i]);
        if w > k - total {
            proof {
                lemma_byte_boundary_none(s, k as int, i as int + 1);
            }
            return None;
        }
        total = total + w;
        i = i + 1;
    }
    if total == k {
        proof {
            lemma_byte_boundary_at(s, k as int, i as int);
        }
        Some(i)
    } else {
        proof {
            assert(s.take(i as int) =~= s);
            if exists|x: int| 0 <= x <= s.len() && utf8_len(#[trigger] s.take(x)) == k {
                let c = choose|x: int| 0 <= x <= s.len() && utf8_len(#[trigger] s.take(x)) == k;
                if c < i {
                    lemma_utf8_len_strict(s, c, i as int);
                }
            }
        }
        None
    }
}

/// The number of bytes of `cs[lo..hi]` in UTF-8 when it is at most `limit`,
/// and `None` when it is more.
pub fn utf8_len_up_to(cs: &Vec<char>, lo: usize, hi: usize, limit: usize) -> (r: Option<usize>)
    requires
        lo <= hi <= cs@.len(),
    ensures
        match r {
            Some(n) => n == utf8_len(cs@.subrange(lo as int, hi as int)) && n <= limit,
            None => utf8_len(cs@.subrange(lo as int, hi as int)) > limit,
        },
{
    let ghost s = cs@.subrange(lo as int, hi as int);
    let mut i: usize = 0;
    let mut total: usize = 0;
    assert(s.take(0) =~= Seq::<char>::empty());
    while i < hi - lo
        invariant
            lo <= hi <= cs@.len(),
            s == cs@.subrange(lo as int, hi as int),
            i <= hi - lo,
            total == utf8_len(s.take(i as int)),
            total <= limit,
        decreases hi - lo - i,
    {
        proof {
            lemma_utf8_len_step(s, i as int);
        }
        let w = char_len_utf8(cs[lo + i]);
        if w > limit - total {
            proof {
                if i + 1 < s.len() {
                    lemma_utf8_len_strict(s, i as int + 1, s.len() as int);
                }
                assert(s.take(s.len() as int) =~= s);
            }
            return None;
        }
        total = total + w;
        i = i + 1;
    }
    assert(s.take(i as int) =~= s);
    Some(total)
}

/// Number of leading occurrences of `c` in `s`.
pub open spec fn count_leading(s: Seq<char>, c: char) -> nat
    decreases s.len(),
{
    if s.len() > 0 && s[0] == c {
        1 + count_leading(s.drop_first(), c)
    } else {
        0
    }
}

pub proof fn lemma_count_leading(s: Seq<char>, c: char, i: int)
    requires
        0 <= i <= s.len(),
        forall|k: int| 0 <= k < i ==> s[k] == c,
        i == s.len() || s[i] != c,
    ensures
        count_leading(s, c) == i,
    decreases s.len(),
{
    if s.len() > 0 && s[0] == c {
        assert forall|k: int| 0 <= k < i - 1 implies s.drop_first()[k] == c by {
            assert(s.drop_first()[k] == s[k + 1]);
        }
        if i < s.len() {
            assert(s.drop_first()[i - 1] == s[i]);
        }
        lemma_count_leading(s.drop_first(), c, i - 1);
    }
}

/// Index of the first occurrence of `c` in `s`, or `s.len()` when there is none.
pub open spec fn first_index(s: Seq<char>, c: char) -> int
    decreases s.len(),
{
    if s.len() == 0 {
        0
    } else if s[0] == c {
        0
    } else {
        1 + first_index(s.drop_first(), c)
    }
}

pub proof fn lemma_first_index(s: Seq<char>, c: char, i: int)
    requires
        0 <= i <= s.len(),
        forall|k: int| 0 <= k < i ==> s[k] != c,
        i == s.len() || s[i] == c,
    ensures
        first_index(s, c) == i,
    decreases s.len(),
{
    if s.len() > 0 && s[0] != c {
        assert forall|k: int| 0 <= k < i - 1 implies s.drop_first()[k] != c by {
            assert(s.drop_first()[k] == s[k + 1]);
        }
        if i < s.len() {
            assert(s.drop_first()[i - 1] == s[i]);
        }
        lemma_first_index(s.drop_first(), c, i - 1);
    }
}

/// The index (relative to `lo`) of the first `c` in `cs[lo..hi]`, or `hi - lo`.
pub fn find_char(cs: &Vec<char>, lo: usize, hi: usize, c: char) -> (r: usize)
    requires
        lo <= hi <= cs@.len(),
    ensures
        r == first_index(cs@.subrange(lo as int, hi as int), c),
        r <= hi - lo,
        r < hi - lo <==> cs@.subrange(lo as int, hi as int).contains(c),
{
    let ghost s = cs@.subrange(lo as int, hi as int);
    let mut i: usize = 0;
    while i < hi - lo && cs[lo + i] != c
        invariant
            lo <= hi <= cs@.len(),
            s == cs@.subrange(lo as int, hi as int),
            i <= hi - lo,
            forall|k: int| 0 <= k < i ==> s[k] != c,
        decreases hi - lo - i,
    {
        i = i + 1;
    }
    proof {
        lemma_first_index(s, c, i as int);
        if i < hi - lo {
            assert(s[i as int] == c);
        }
    }
    i
}

pub open spec fn decimal_digit(d: nat) -> char {
    ((d + 48) as u32) as char
}

/// The decimal representation of `n`, as `Display` writes it.
pub open spec fn u8_decimal(n: u8) -> Seq<char> {
    if n < 10 {
        seq![decimal_digit(n as nat)]
    } else if n < 100 {
        seq![decimal_digit((n / 10) as nat), decimal_digit((n % 10) as nat)]
    } else {
        seq![
            decimal_digit((n / 100) as nat),
            decimal_digit(((n / 10) % 10) as nat),
            decimal_digit((n % 10) as nat),
        ]
    }
}

fn digit_char(d: u8) -> (c: char)
    requires
        d < 10,
    ensures
        c == decimal_digit(d as nat),
{
    ((d + 48) as char)
}

/// Appends the decimal representation of `n`.
pub fn push_u8_decimal(buf: &mut String, n: u8)
    ensures
        final(buf)@ == old(buf)@ + u8_decimal(n),
{
    let ghost start = buf@;
    if n < 10 {
        push_char(buf, digit_char(n));
    } else if n < 100 {
        push_char(buf, digit_char(n / 10));
        push_char(buf, digit_char(n % 10));
    } else {
        push_char(buf, digit_char(n / 100));
        push_char(buf, digit_char((n / 10) % 10));
        push_char(buf, digit_char(n % 10));
    }
    assert(buf@ =~= start + u8_decimal(n));
}


/// The value of an ASCII decimal digit.
pub open spec fn decimal_digit_value(c: char) -> Option<nat> {
    if '0' <= c && c <= '9' {
        Some((c as nat - 48) as nat)
    } else {
        None
    }
}

pub open spec fn all_decimal_digits(ds: Seq<char>) -> bool {
    forall|k: int| 0 <= k < ds.len() ==> (#[trigger] decimal_digit_value(ds[k])) is Some
}

/// The number that the decimal digits `ds` denote.
pub open spec fn decimal_value(ds: Seq<char>) -> nat
    decreases ds.len(),
{
    if ds.len() == 0 {
        0
    } else {
        decimal_value(ds.drop_last()) * 10 + decimal_digit_value(ds.last()).unwrap_or(0)
    }
}

/// `usize::from_str`: an optional `+`, then at least one decimal digit,
/// denoting at most `usize::MAX`.
pub open spec fn spec_parse_usize(t: Seq<char>) -> Option<usize> {
    let digits = if t.len() > 0 && t[0] == '+' {
        t.drop_first()
    } else {
        t
    };
    if digits.len() > 0 && all_decimal_digits(digits) && decimal_value(digits) <= usize::MAX {
        Some(decimal_value(digits) as usize)
    } else {
        None
    }
}

pub proof fn lemma_decimal_value_prefix(ds: Seq<char>, k: int)
    requires
        0 <= k <= ds.len(),
    ensures
        decimal_value(ds.take(k)) <= decimal_value(ds),
    decreases ds.len(),
{
    if k < ds.len() {
        assert(ds.drop_last().take(k) =~= ds.take(k));
        lemma_decimal_value_prefix(ds.drop_last(), k);
    } else {
        assert(ds.take(k) =~= ds);
    }
}

/// `cs[lo..hi].parse::<usize>()`.
pub fn parse_usize(cs: &Vec<char>, lo: usize, hi: usize) -> (r: Option<usize>)
    requires
        lo <= hi <= cs@.len(),
    ensures
        r == spec_parse_usize(cs@.subrange(lo as int, hi as int)),
{
    let ghost t = cs@.subrange(lo as int, hi as int);
    let start = if lo < hi && cs[lo] == '+' {
        lo + 1
    } else {
        lo
    };
    let ghost digits = cs@.subrange(start as int, hi as int);
    assert(digits =~= (if t.len() > 0 && t[0] == '+' {
        t.drop_first()
    } else {
        t
    }));
    if start == hi {
        return None;
    }
    let mut value: usize = 0;
    let mut i: usize = start;
    assert(digits.take(0) =~= Seq::<char>::empty());
    while i < hi
        invariant
            lo <= start <= i <= hi <= cs@.len(),
            digits == cs@.subrange(start as int, hi as int),
            t == cs@.subrange(lo as int, hi as int),
            digits == (if t.len() > 0 && t[0] == '+' {
                t.drop_first()
            } else {
                t
            }),
            all_decimal_digits(digits.take(i - start)),
            value == decimal_value(digits.take(i - start)),
        decreases hi - i,
    {
        let ghost k = i - start;
        assert(digits.take(k + 1).drop_last() =~= digits.take(k));
        assert(digits[k] == cs@[i as int]);
        let c = cs[i];
        if !('0' <= c && c <= '9') {
            assert(decimal_digit_value(digits[k]) is None);
            assert(!all_decimal_digits(digits));
            return None;
        }
        let d = ((c as u32) - 48) as usize;
        assert(decimal_digit_value(c) == Some(d as nat));
        let next = match value.checked_mul(10) {
            Some(m) => m.checked_add(d),
            None => None,
        };
        assert(next is Some ==> next->0 == decimal_value(digits.take(k + 1)));
        match next {
            None => {
                proof {
                    assert(decimal_value(digits.take(k + 1)) > usize::MAX) by (nonlinear_arith)
                        requires
                            decimal_value(digits.take(k + 1)) == value * 10 + d,
                            value * 10 > usize::MAX || value * 10 + d > usize::MAX,
                    ;
                    if all_decimal_digits(digits) {
                        lemma_decimal_value_prefix(digits, k + 1);
                    }
                }
                assert(spec_parse_usize(t) is None);
                return None;
            },
            Some(v) => {
                value = v;
            },
        }
        i = i + 1;
        assert forall|j: int| 0 <= j < k + 1 implies (#[trigger] decimal_digit_value(
            digits.take(k + 1)[j],
        )) is Some by {
            if j < k {
                assert(digits.take(k + 1)[j] == digits.take(k)[j]);
            }
        }
    }
    assert(digits.take(hi - start) =~= digits);
    Some(value)
}

/// A line without the `\r` that ended it before its `\n`.
pub open spec fn strip_cr(l: Seq<char>) -> Seq<char> {
    if l.len() > 0 && l.last() == '\r' {
        l.drop_last()
    } else {
        l
    }
}

/// `str::lines`: the text split at `\n` (a `\r` just before it is dropped);
/// a final line needs no terminator, and no empty line follows a final `\n`.
pub open spec fn text_lines(s: Seq<char>) -> Seq<Seq<char>> {
    let ps = split_on(s, '\n');
    let ended = ps.drop_last().map_values(|l: Seq<char>| strip_cr(l));
    if ps.last().len() == 0 {
        ended
    } else {
        ended.push(ps.last())
    }
}


/// The lines of `text` (`str::lines`).
pub fn lines_of(text: &str) -> (r: Vec<Vec<char>>)
    ensures
        views(r@) == text_lines(text@),
{
    let cs = chars_of(text);
    let pieces = split_chars(&cs, '\n');
    let ghost ps = views(pieces@);
    proof {
        lemma_split_on_nonempty(cs@, '\n');
    }
    let last = pieces.len() - 1;
    let mut out: Vec<Vec<char>> = Vec::new();
    let mut i: usize = 0;
    while i < last
        invariant
            ps == views(pieces@),
            ps == split_on(text@, '\n'),
            last == ps.len() - 1,
            i <= last,
            views(out@) == ps.take(i as int).map_values(|l: Seq<char>| strip_cr(l)),
        decreases last - i,
    {
        let piece = &pieces[i];
        assert(ps[i as int] == piece@);
        let n = piece.len();
        let end = if n > 0 && piece[n - 1] == '\r' {
            n - 1
        } else {
            n
        };
        let mut line: Vec<char> = Vec::new();
        let mut j: usize = 0;
        while j < end
            invariant
                end <= piece@.len(),
                j <= end,
                line@ == piece@.subrange(0, j as int),
            decreases end - j,
        {
            line.push(piece[j]);
            j = j + 1;
            assert(line@ =~= piece@.subrange(0, j as int));
        }
        assert(line@ =~= strip_cr(piece@));
        let ghost before = out@;
        out.push(line);
        assert(views(out@) =~= ps.take(i + 1).map_values(|l: Seq<char>| strip_cr(l))) by {
            assert(views(out@) =~= views(before).push(strip_cr(piece@)));
        }
        i = i + 1;
    }
    assert(ps.take(last as int) =~= ps.drop_last());
    let tail = &pieces[last];
    assert(ps[last as int] == tail@);
    if tail.len() > 0 {
        let mut line: Vec<char> = Vec::new();
        let mut j: usize = 0;
        while j < tail.len()
            invariant
                j <= tail@.len(),
                line@ == tail@.subrange(0, j as int),
            decreases tail@.len() - j,
        {
            line.push(tail[j]);
            j = j + 1;
            assert(line@ =~= tail@.subrange(0, j as int));
        }
        assert(line@ =~= tail@);
        let ghost before = out@;
        out.push(line);
        assert(views(out@) =~= views(before).push(tail@));
    }
    out
}

} // verus!

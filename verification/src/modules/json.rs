//! The json module: a value read from standard input, addressed by a
//! dot-separated path such as `.model.display_name` or `.items.1`.
use vstd::prelude::*;
use vstd::string::*;
use crate::error::{is_invalid_format, PromptError};
use crate::text::{chars_of, parse_usize, spec_parse_usize, split_chars, split_on, views};

verus! {

/// A JSON value as the json module reads it. Numbers keep the text that
/// displays them; arrays and objects also keep their compact serialisation,
/// which is what a path ending at them displays.
pub enum JsonValue {
    Null,
    Bool(bool),
    Number(String),
    Text(String),
    Array(Vec<JsonValue>, String),
    Object(Vec<(String, JsonValue)>, String),
}

/// The member named `key` of an object's entries (keys are distinct).
pub open spec fn object_get(entries: Seq<(String, JsonValue)>, key: Seq<char>) -> Option<JsonValue>
    decreases entries.len(),
{
    if entries.len() == 0 {
        None
    } else if entries[0].0@ == key {
        Some(entries[0].1)
    } else {
        object_get(entries.drop_first(), key)
    }
}

/// The value reached from `cur` by the path segments `keys`: empty segments are
/// skipped, a segment names an object member or (as a decimal index) an array
/// element, and anything else ends the walk with nothing.
pub open spec fn resolve_keys(cur: JsonValue, keys: Seq<Seq<char>>) -> Option<JsonValue>
    decreases keys.len(),
{
    if keys.len() == 0 {
        Some(cur)
    } else {
        let k = keys[0];
        let rest = keys.drop_first();
        if k.len() == 0 {
            resolve_keys(cur, rest)
        } else {
            match cur {
                JsonValue::Object(entries, _) => match object_get(entries@, k) {
                    Some(v) => resolve_keys(v, rest),
                    None => None,
                },
                JsonValue::Array(items, _) => match spec_parse_usize(k) {
                    Some(i) => if i < items@.len() {
                        resolve_keys(items@[i as int], rest)
                    } else {
                        None
                    },
                    None => None,
                },
                _ => None,
            }
        }
    }
}

/// `path` without one leading `.`.
pub open spec fn strip_leading_dot(path: Seq<char>) -> Seq<char> {
    if path.len() > 0 && path[0] == '.' {
        path.drop_first()
    } else {
        path
    }
}

/// The value that `path` addresses in `root`.
pub open spec fn spec_resolve_path(root: JsonValue, path: Seq<char>) -> Option<JsonValue> {
    resolve_keys(root, split_on(strip_leading_dot(path), '.'))
}

fn object_lookup<'a>(entries: &'a Vec<(String, JsonValue)>, key: &Vec<char>) -> (r: Option<
    &'a JsonValue,
>)
    ensures
        match (r, object_get(entries@, key@)) {
            (Some(v), Some(w)) => *v == w,
            (None, None) => true,
            _ => false,
        },
{
    let n = key.len();
    let mut i: usize = 0;
    assert(entries@.skip(0) =~= entries@);
    while i < entries.len()
        invariant
            i <= entries@.len(),
            n == key@.len(),
            object_get(entries@.skip(i as int), key@) == object_get(entries@, key@),
        decreases entries@.len() - i,
    {
        assert(entries@.skip(i as int)[0] == entries@[i as int]);
        assert(entries@.skip(i as int).drop_first() =~= entries@.skip(i + 1));
        let name = entries[i].0.as_str();
        let names = chars_of(name);
        if names.len() == n && crate::text::slice_eq_str(key, 0, n, name) {
            assert(key@.subrange(0, n as int) =~= key@);
            return Some(&entries[i].1);
        }
        proof {
            if entries@[i as int].0@ == key@ {
                assert(key@.subrange(0, n as int) =~= key@);
            }
        }
        i = i + 1;
    }
    None
}

/// The value that `path` addresses in `root`: the path may start with `.`,
/// its `.`-separated segments name object members or array indices, and empty
/// segments are skipped.
pub fn resolve_path<'a>(root: &'a JsonValue, path: &str) -> (r: Option<&'a JsonValue>)
    ensures
        match (r, spec_resolve_path(*root, path@)) {
            (Some(v), Some(w)) => *v == w,
            (None, None) => true,
            _ => false,
        },
{
    let cs = chars_of(path);
    let mut rest: Vec<char> = Vec::new();
    let start: usize = if cs.len() > 0 && cs[0] == '.' {
        1
    } else {
        0
    };
    let mut j: usize = start;
    while j < cs.len()
        invariant
            start <= j <= cs@.len(),
            rest@ == cs@.subrange(start as int, j as int),
        decreases cs@.len() - j,
    {
        rest.push(cs[j]);
        j = j + 1;
        assert(rest@ =~= cs@.subrange(start as int, j as int));
    }
    assert(rest@ =~= strip_leading_dot(path@));
    let parts = split_chars(&rest, '.');
    let ghost ps = views(parts@);
    let mut current: &JsonValue = root;
    let mut i: usize = 0;
    assert(ps.skip(0) =~= ps);
    while i < parts.len()
        invariant
            ps == views(parts@),
            ps == split_on(strip_leading_dot(path@), '.'),
            i <= parts@.len(),
            resolve_keys(*current, ps.skip(i as int)) == spec_resolve_path(*root, path@),
        decreases parts@.len() - i,
    {
        let key = &parts[i];
        assert(ps.skip(i as int)[0] == key@);
        assert(ps.skip(i as int).drop_first() =~= ps.skip(i + 1));
        if key.len() > 0 {
            match current {
                JsonValue::Object(entries, _) => {
                    match object_lookup(entries, key) {
                        Some(v) => {
                            current = v;
                        },
                        None => {
                            return None;
                        },
                    }
                },
                JsonValue::Array(items, _) => {
                    let n = key.len();
                    assert(key@.subrange(0, n as int) =~= key@);
                    match parse_usize(key, 0, n) {
                        Some(index) => {
                            if index < items.len() {
                                current = &items[index];
                            } else {
                                return None;
                            }
                        },
                        None => {
                            return None;
                        },
                    }
                },
                _ => {
                    return None;
                },
            }
        }
        i = i + 1;
    }
    assert(ps.skip(i as int).len() == 0);
    Some(current)
}

/// What a resolved value displays: strings as they are, `true`/`false`,
/// numbers as they print, arrays and objects as compact JSON; nothing for
/// `null` or a missing value.
pub open spec fn json_display(v: Option<JsonValue>) -> Option<Seq<char>> {
    match v {
        None => None,
        Some(JsonValue::Null) => None,
        Some(JsonValue::Text(s)) => Some(s@),
        Some(JsonValue::Bool(b)) => Some(
            if b {
                "true"@
            } else {
                "false"@
            },
        ),
        Some(JsonValue::Number(n)) => Some(n@),
        Some(JsonValue::Array(_, text)) => Some(text@),
        Some(JsonValue::Object(_, text)) => Some(text@),
    }
}

/// The advice the json module gives when its format is empty.
pub open spec fn json_format_advice() -> Seq<char> {
    "Provide a dot-path, e.g., {json::.field.nested}"@
}

/// The json prompt module.
pub struct JsonModule;

impl JsonModule {
    pub fn new() -> (r: JsonModule) {
        JsonModule
    }

    /// Renders the value that `format` addresses in the JSON read from
    /// standard input (`None` when there was none). An empty format is an
    /// error.
    pub fn render(&self, format: &str, stdin_data: Option<&JsonValue>) -> (r: Result<
        Option<String>,
        PromptError,
    >)
        ensures
            format@.len() == 0 ==> (r matches Err(e) && is_invalid_format(
                e,
                "json"@,
                format@,
                json_format_advice(),
            )),
            format@.len() > 0 ==> (r matches Ok(out) && match stdin_data {
                None => out is None,
                Some(root) => match out {
                    Some(s) => json_display(spec_resolve_path(*root, format@)) == Some(s@),
                    None => json_display(spec_resolve_path(*root, format@)) is None,
                },
            }),
    {
        if format.is_empty() {
            return Err(
                PromptError::invalid_format(
                    "json",
                    format,
                    "Provide a dot-path, e.g., {json::.field.nested}",
                ),
            );
        }
        let root = match stdin_data {
            Some(r) => r,
            None => {
                return Ok(None);
            },
        };
        match resolve_path(root, format) {
            None => Ok(None),
            Some(JsonValue::Null) => Ok(None),
            Some(JsonValue::Text(s)) => Ok(Some(s.clone())),
            Some(JsonValue::Bool(b)) => Ok(
                Some(
                    if *b {
                        String::from_str("true")
                    } else {
                        String::from_str("false")
                    },
                ),
            ),
            Some(JsonValue::Number(n)) => Ok(Some(n.clone())),
            Some(JsonValue::Array(_, text)) => Ok(Some(text.clone())),
            Some(JsonValue::Object(_, text)) => Ok(Some(text.clone())),
        }
    }
}


proof fn lemma_split_on_after_sep(x: Seq<char>, sep: char)
    ensures
        split_on(seq![sep] + x, sep) == seq![Seq::<char>::empty()] + split_on(x, sep),
    decreases x.len(),
{
    if x.len() == 0 {
        let s = seq![sep] + x;
        assert(s.drop_last() =~= Seq::<char>::empty());
        assert(s.last() == sep);
        assert(split_on(s.drop_last(), sep) == seq![Seq::<char>::empty()]);
        assert(split_on(x, sep) == seq![Seq::<char>::empty()]);
        assert(split_on(s, sep) == split_on(s.drop_last(), sep).push(Seq::<char>::empty()));
        assert(split_on(s, sep) =~= seq![Seq::<char>::empty()] + split_on(x, sep));
    } else {
        let s = seq![sep] + x;
        assert(s.drop_last() =~= seq![sep] + x.drop_last());
        assert(s.last() == x.last());
        lemma_split_on_after_sep(x.drop_last(), sep);
        crate::text::lemma_split_on_nonempty(x.drop_last(), sep);
        let inner = split_on(x.drop_last(), sep);
        let rest = split_on(s.drop_last(), sep);
        assert(rest == seq![Seq::<char>::empty()] + inner);
        assert(rest.last() == inner.last());
        if x.last() == sep {
            assert(split_on(s, sep) == rest.push(Seq::<char>::empty()));
            assert(split_on(x, sep) == inner.push(Seq::<char>::empty()));
        } else {
            assert(split_on(s, sep) == rest.update(rest.len() - 1, rest.last().push(s.last())));
            assert(split_on(x, sep) == inner.update(inner.len() - 1, inner.last().push(x.last())));
        }
        assert(split_on(s, sep) =~= seq![Seq::<char>::empty()] + split_on(x, sep));
    }
}

/// A path reaches the same value whether or not it starts with a `.`: the
/// leading `.` is optional, and the empty segments that extra dots make are
/// skipped.
pub proof fn lemma_leading_dot_is_optional(root: JsonValue, path: Seq<char>)
    ensures
        spec_resolve_path(root, seq!['.'] + path) == spec_resolve_path(root, path),
{
    assert((seq!['.'] + path).drop_first() =~= path);
    if path.len() > 0 && path[0] == '.' {
        let rest = path.drop_first();
        assert(path =~= seq!['.'] + rest);
        lemma_split_on_after_sep(rest, '.');
        let keys = split_on(path, '.');
        assert(keys[0].len() == 0);
        assert(keys.drop_first() =~= split_on(rest, '.'));
    }
}

/// Only a missing value and `null` display nothing. A boolean displays as
/// `true` or `false`, a string as itself, and a number, array or object as the
/// JSON text it carries, whatever its value.
pub proof fn lemma_display_of_values(v: Option<JsonValue>)
    ensures
        (json_display(v) is None) <==> (v is None || v == Some(JsonValue::Null)),
        v matches Some(JsonValue::Bool(b)) ==> json_display(v) == Some(
            if b {
                "true"@
            } else {
                "false"@
            },
        ),
        v matches Some(JsonValue::Text(s)) ==> json_display(v) == Some(s@),
        v matches Some(JsonValue::Number(n)) ==> json_display(v) == Some(n@),
        v matches Some(JsonValue::Array(_, t)) ==> json_display(v) == Some(t@),
        v matches Some(JsonValue::Object(_, t)) ==> json_display(v) == Some(t@),
{
}

proof fn lemma_resolve_keys_concat(cur: JsonValue, k1: Seq<Seq<char>>, k2: Seq<Seq<char>>)
    ensures
        resolve_keys(cur, k1 + k2) == match resolve_keys(cur, k1) {
            Some(v) => resolve_keys(v, k2),
            None => None,
        },
    decreases k1.len(),
{
    if k1.len() == 0 {
        assert(k1 + k2 =~= k2);
    } else {
        assert((k1 + k2)[0] == k1[0]);
        assert((k1 + k2).drop_first() =~= k1.drop_first() + k2);
        let k = k1[0];
        if k.len() == 0 {
            lemma_resolve_keys_concat(cur, k1.drop_first(), k2);
        } else {
            match cur {
                JsonValue::Object(entries, _) => {
                    if let Some(v) = object_get(entries@, k) {
                        lemma_resolve_keys_concat(v, k1.drop_first(), k2);
                    }
                },
                JsonValue::Array(items, _) => {
                    if let Some(i) = spec_parse_usize(k) {
                        if i < items@.len() {
                            lemma_resolve_keys_concat(items@[i as int], k1.drop_first(), k2);
                        }
                    }
                },
                _ => {},
            }
        }
    }
}

proof fn lemma_resolve_split(cur: JsonValue, path: Seq<char>)
    ensures
        resolve_keys(cur, split_on(path, '.')) == spec_resolve_path(cur, path),
{
    if path.len() > 0 && path[0] == '.' {
        let rest = path.drop_first();
        assert(path =~= seq!['.'] + rest);
        lemma_split_on_after_sep(rest, '.');
        let keys = split_on(path, '.');
        assert(keys[0].len() == 0);
        assert(keys.drop_first() =~= split_on(rest, '.'));
    }
}

/// The empty path addresses the root, and a path joined from two by `.`
/// addresses what the second path addresses in what the first one reaches.
pub proof fn lemma_joined_path_resolves_in_turn(root: JsonValue, a: Seq<char>, b: Seq<char>)
    ensures
        spec_resolve_path(root, Seq::empty()) == Some(root),
        spec_resolve_path(root, a + seq!['.'] + b) == match spec_resolve_path(root, a) {
            Some(v) => spec_resolve_path(v, b),
            None => None,
        },
{
    let empty_keys = split_on(Seq::<char>::empty(), '.');
    assert(empty_keys[0].len() == 0);
    assert(empty_keys.drop_first() =~= Seq::<Seq<char>>::empty());
    assert(strip_leading_dot(Seq::<char>::empty()) =~= Seq::<char>::empty());
    assert(resolve_keys(root, empty_keys.drop_first()) == Some(root));
    assert(resolve_keys(root, empty_keys) == Some(root));
    let joined = a + seq!['.'] + b;
    if a.len() == 0 {
        assert(joined =~= seq!['.'] + b);
        assert(strip_leading_dot(joined) =~= b);
        lemma_resolve_split(root, b);
    } else {
        let sa = strip_leading_dot(a);
        assert(strip_leading_dot(joined) =~= sa + seq!['.'] + b);
        crate::text::lemma_split_on_join(sa, b, '.');
        lemma_resolve_keys_concat(root, split_on(sa, '.'), split_on(b, '.'));
        if let Some(v) = spec_resolve_path(root, a) {
            lemma_resolve_split(v, b);
        }
    }
}

} // verus!

//! Terminal styles: parsing of style strings such as `cyan.bold` or
//! `red+#00ff00`, and their rendering as ANSI escape sequences, optionally
//! wrapped in the zero-width markers a shell needs.
use vstd::prelude::*;
use vstd::string::*;
use vstd::seq_lib::lemma_concat_associative;
use crate::text::{find_char, first_index, split_chars, split_on, views, byte_boundary, count_leading, find_byte_boundary, lemma_count_leading, lemma_utf8_len_strict, utf8_len, utf8_len_up_to, push_u8_decimal, u8_decimal, ascii_lower_all, char_ascii_lower, chars_of, slice_eq_str, string_from_chars, trim, trim_bounds};

verus! {

/// The shell whose prompt escapes wrap the non-printing sequences.
#[derive(Debug, Clone, Copy, PartialEq, Eq, Structural)]
pub enum Shell {
    Plain,
    Zsh,
    Bash,
}

/// Opening and closing markers around a non-printing sequence.
pub open spec fn shell_delimiters(shell: Shell) -> (Seq<char>, Seq<char>) {
    match shell {
        Shell::Zsh => ("%{"@, "%}"@),
        Shell::Bash => ("\x01"@, "\x02"@),
        Shell::Plain => (Seq::empty(), Seq::empty()),
    }
}

/// What `Shell::from_str` gives: the name is trimmed and compared without regard
/// to ASCII case.
pub open spec fn spec_shell_from_str(value: Seq<char>) -> Result<Shell, Seq<char>> {
    let key = ascii_lower_all(trim(value));
    if key == "zsh"@ {
        Ok(Shell::Zsh)
    } else if key == "bash"@ {
        Ok(Shell::Bash)
    } else if key == "none"@ || key.len() == 0 {
        Ok(Shell::Plain)
    } else {
        Err("Unknown shell: "@ + key + " (supported values: bash, zsh, none)"@)
    }
}

impl Shell {
    fn delimiters(self) -> (r: (&'static str, &'static str))
        ensures
            r.0@ == shell_delimiters(self).0,
            r.1@ == shell_delimiters(self).1,
    {
        proof {
            reveal_strlit("");
        }
        match self {
            Shell::Zsh => ("%{", "%}"),
            Shell::Bash => ("\x01", "\x02"),
            Shell::Plain => ("", ""),
        }
    }

    /// Parses a shell name (`bash`, `zsh`, `none` or empty), ignoring
    /// surrounding whitespace and ASCII case.
    pub fn parse_name(value: &str) -> (r: Result<Shell, String>)
        ensures
            match r {
                Ok(s) => spec_shell_from_str(value@) == Ok::<Shell, Seq<char>>(s),
                Err(e) => spec_shell_from_str(value@) == Err::<Shell, Seq<char>>(e@),
            },
    {
        let cs = chars_of(value);
        let (lo, hi) = trim_bounds(&cs);
        let mut key: Vec<char> = Vec::new();
        let mut i: usize = lo;
        while i < hi
            invariant
                lo <= i <= hi <= cs@.len(),
                key@ == ascii_lower_all(cs@.subrange(lo as int, i as int)),
            decreases hi - i,
        {
            key.push(char_ascii_lower(cs[i]));
            i = i + 1;
            assert(key@ =~= ascii_lower_all(cs@.subrange(lo as int, i as int)));
        }
        let n = key.len();
        if slice_eq_str(&key, 0, n, "zsh") {
            assert(key@.subrange(0, n as int) =~= key@);
            Ok(Shell::Zsh)
        } else if slice_eq_str(&key, 0, n, "bash") {
            assert(key@.subrange(0, n as int) =~= key@);
            Ok(Shell::Bash)
        } else if slice_eq_str(&key, 0, n, "none") || n == 0 {
            assert(key@.subrange(0, n as int) =~= key@);
            Ok(Shell::Plain)
        } else {
            assert(key@.subrange(0, n as int) =~= key@);
            let mut msg = String::from_str("Unknown shell: ");
            let k = string_from_chars(&key, 0, n);
            msg.append(k.as_str());
            msg.append(" (supported values: bash, zsh, none)");
            Err(msg)
        }
    }
}

impl core::default::Default for Shell {
    fn default() -> (r: Shell)
        ensures
            r == Shell::Plain,
    {
        Shell::Plain
    }
}

impl core::str::FromStr for Shell {
    type Err = String;

    fn from_str(value: &str) -> (r: Result<Shell, String>)
        ensures
            match r {
                Ok(s) => spec_shell_from_str(value@) == Ok::<Shell, Seq<char>>(s),
                Err(e) => spec_shell_from_str(value@) == Err::<Shell, Seq<char>>(e@),
            },
    {
        Shell::parse_name(value)
    }
}


/// A terminal colour: one of the eight named ANSI colours or a 24-bit colour.
#[derive(Debug, Clone, Copy, PartialEq, Eq, Structural)]
pub enum Color {
    Black,
    Red,
    Green,
    Yellow,
    Blue,
    Purple,
    Cyan,
    White,
    Rgb(u8, u8, u8),
}

/// `ESC [ <prefix> r ; g ; b m` for a 24-bit colour.
pub open spec fn rgb_sequence(prefix: Seq<char>, r: u8, g: u8, b: u8) -> Seq<char> {
    prefix + u8_decimal(r) + ";"@ + u8_decimal(g) + ";"@ + u8_decimal(b) + "m"@
}

/// The escape sequence that selects `c` as the foreground colour.
pub open spec fn foreground_sequence(c: Color) -> Seq<char> {
    match c {
        Color::Black => "\x1b[30m"@,
        Color::Red => "\x1b[31m"@,
        Color::Green => "\x1b[32m"@,
        Color::Yellow => "\x1b[33m"@,
        Color::Blue => "\x1b[34m"@,
        Color::Purple => "\x1b[35m"@,
        Color::Cyan => "\x1b[36m"@,
        Color::White => "\x1b[37m"@,
        Color::Rgb(r, g, b) => rgb_sequence("\x1b[38;2;"@, r, g, b),
    }
}

/// The escape sequence that selects `c` as the background colour.
pub open spec fn background_sequence(c: Color) -> Seq<char> {
    match c {
        Color::Black => "\x1b[40m"@,
        Color::Red => "\x1b[41m"@,
        Color::Green => "\x1b[42m"@,
        Color::Yellow => "\x1b[43m"@,
        Color::Blue => "\x1b[44m"@,
        Color::Purple => "\x1b[45m"@,
        Color::Cyan => "\x1b[46m"@,
        Color::White => "\x1b[47m"@,
        Color::Rgb(r, g, b) => rgb_sequence("\x1b[48;2;"@, r, g, b),
    }
}

fn push_if(buf: &mut String, cond: bool, lit: &str)
    ensures
        final(buf)@ == old(buf)@ + seq_if(cond, lit@),
{
    if cond {
        buf.append(lit);
    } else {
        assert(old(buf)@ + seq_if(cond, lit@) =~= old(buf)@);
    }
}

fn push_rgb(buf: &mut String, prefix: &str, r: u8, g: u8, b: u8)
    ensures
        final(buf)@ == old(buf)@ + rgb_sequence(prefix@, r, g, b),
{
    let ghost start = buf@;
    buf.append(prefix);
    push_u8_decimal(buf, r);
    buf.append(";");
    push_u8_decimal(buf, g);
    buf.append(";");
    push_u8_decimal(buf, b);
    buf.append("m");
    assert(buf@ =~= start + rgb_sequence(prefix@, r, g, b));
}

impl Color {
    fn push_ansi_code(&self, buf: &mut String)
        ensures
            final(buf)@ == old(buf)@ + foreground_sequence(*self),
    {
        match self {
            Color::Black => buf.append("\x1b[30m"),
            Color::Red => buf.append("\x1b[31m"),
            Color::Green => buf.append("\x1b[32m"),
            Color::Yellow => buf.append("\x1b[33m"),
            Color::Blue => buf.append("\x1b[34m"),
            Color::Purple => buf.append("\x1b[35m"),
            Color::Cyan => buf.append("\x1b[36m"),
            Color::White => buf.append("\x1b[37m"),
            Color::Rgb(r, g, b) => push_rgb(buf, "\x1b[38;2;", *r, *g, *b),
        }
    }

    fn push_ansi_bg_code(&self, buf: &mut String)
        ensures
            final(buf)@ == old(buf)@ + background_sequence(*self),
    {
        match self {
            Color::Black => buf.append("\x1b[40m"),
            Color::Red => buf.append("\x1b[41m"),
            Color::Green => buf.append("\x1b[42m"),
            Color::Yellow => buf.append("\x1b[43m"),
            Color::Blue => buf.append("\x1b[44m"),
            Color::Purple => buf.append("\x1b[45m"),
            Color::Cyan => buf.append("\x1b[46m"),
            Color::White => buf.append("\x1b[47m"),
            Color::Rgb(r, g, b) => push_rgb(buf, "\x1b[48;2;", *r, *g, *b),
        }
    }
}

/// A text style: optional foreground and background colours and attributes.
#[derive(Debug, Clone, Copy, PartialEq, Eq, Structural)]
pub struct AnsiStyle {
    pub color: Option<Color>,
    pub background: Option<Color>,
    pub bold: bool,
    pub italic: bool,
    pub underline: bool,
    pub dim: bool,
    pub reverse: bool,
    pub strikethrough: bool,
}

/// The style with no colour and no attribute.
pub open spec fn plain_style() -> AnsiStyle {
    AnsiStyle {
        color: None,
        background: None,
        bold: false,
        italic: false,
        underline: false,
        dim: false,
        reverse: false,
        strikethrough: false,
    }
}

impl core::default::Default for AnsiStyle {
    fn default() -> (r: AnsiStyle)
        ensures
            r == plain_style(),
    {
        AnsiStyle {
            color: None,
            background: None,
            bold: false,
            italic: false,
            underline: false,
            dim: false,
            reverse: false,
            strikethrough: false,
        }
    }
}

/// Whether the style changes anything at all.
pub open spec fn has_any_style(st: AnsiStyle) -> bool {
    st.color is Some || st.background is Some || st.bold || st.italic || st.underline || st.dim
        || st.reverse || st.strikethrough
}

pub open spec fn seq_if(cond: bool, s: Seq<char>) -> Seq<char> {
    if cond {
        s
    } else {
        Seq::empty()
    }
}

/// The escape sequences that switch the style on, in the order foreground,
/// background, bold, dim, italic, underline, reverse, strikethrough.
pub open spec fn raw_codes(st: AnsiStyle) -> Seq<char> {
    (match st.color {
        Some(c) => foreground_sequence(c),
        None => Seq::empty(),
    }) + (match st.background {
        Some(c) => background_sequence(c),
        None => Seq::empty(),
    }) + seq_if(st.bold, "\x1b[1m"@) + seq_if(st.dim, "\x1b[2m"@) + seq_if(st.italic, "\x1b[3m"@)
        + seq_if(st.underline, "\x1b[4m"@) + seq_if(st.reverse, "\x1b[7m"@) + seq_if(
        st.strikethrough,
        "\x1b[9m"@,
    )
}

/// `codes` wrapped in the shell's non-printing markers.
pub open spec fn shell_wrapped(codes: Seq<char>, shell: Shell) -> Seq<char> {
    if shell == Shell::Plain {
        codes
    } else {
        shell_delimiters(shell).0 + codes + shell_delimiters(shell).1
    }
}

/// What the style writes before the text.
pub open spec fn start_codes(st: AnsiStyle, shell: Shell) -> Seq<char> {
    if !has_any_style(st) {
        Seq::empty()
    } else {
        shell_wrapped(raw_codes(st), shell)
    }
}

/// What the style writes after the text.
pub open spec fn reset_codes(st: AnsiStyle, shell: Shell) -> Seq<char> {
    if !has_any_style(st) {
        Seq::empty()
    } else {
        shell_wrapped("\x1b[0m"@, shell)
    }
}

/// `text` rendered in the style: unchanged when the style is plain.
pub open spec fn styled_text(st: AnsiStyle, text: Seq<char>, shell: Shell) -> Seq<char> {
    if !has_any_style(st) {
        text
    } else {
        start_codes(st, shell) + text + reset_codes(st, shell)
    }
}

impl AnsiStyle {
    /// Whether the style changes anything: a colour or an attribute is set.
    pub fn has_style(&self) -> (r: bool)
        ensures
            r == has_any_style(*self),
    {
        self.color.is_some() || self.background.is_some() || self.bold || self.italic
            || self.underline || self.dim || self.reverse || self.strikethrough
    }

    /// Appends the escape sequences that switch the style on, unwrapped.
    pub fn write_raw_codes(&self, buf: &mut String)
        ensures
            final(buf)@ == old(buf)@ + raw_codes(*self),
    {
        let ghost start = buf@;
        let ghost fg = match self.color {
            Some(c) => foreground_sequence(c),
            None => Seq::<char>::empty(),
        };
        let ghost bg = match self.background {
            Some(c) => background_sequence(c),
            None => Seq::<char>::empty(),
        };
        if let Some(ref color) = self.color {
            color.push_ansi_code(buf);
        } else {
            assert(buf@ =~= start + fg);
        }
        if let Some(ref background) = self.background {
            background.push_ansi_bg_code(buf);
        } else {
            assert(buf@ =~= (start + fg) + bg);
        }
        let ghost mut acc = fg + bg;
        proof {
            lemma_concat_associative(start, fg, bg);
        }
        push_if(buf, self.bold, "\x1b[1m");
        proof {
            lemma_concat_associative(start, acc, seq_if(self.bold, "\x1b[1m"@));
            acc = acc + seq_if(self.bold, "\x1b[1m"@);
        }
        push_if(buf, self.dim, "\x1b[2m");
        proof {
            lemma_concat_associative(start, acc, seq_if(self.dim, "\x1b[2m"@));
            acc = acc + seq_if(self.dim, "\x1b[2m"@);
        }
        push_if(buf, self.italic, "\x1b[3m");
        proof {
            lemma_concat_associative(start, acc, seq_if(self.italic, "\x1b[3m"@));
            acc = acc + seq_if(self.italic, "\x1b[3m"@);
        }
        push_if(buf, self.underline, "\x1b[4m");
        proof {
            lemma_concat_associative(start, acc, seq_if(self.underline, "\x1b[4m"@));
            acc = acc + seq_if(self.underline, "\x1b[4m"@);
        }
        push_if(buf, self.reverse, "\x1b[7m");
        proof {
            lemma_concat_associative(start, acc, seq_if(self.reverse, "\x1b[7m"@));
            acc = acc + seq_if(self.reverse, "\x1b[7m"@);
        }
        push_if(buf, self.strikethrough, "\x1b[9m");
        proof {
            lemma_concat_associative(start, acc, seq_if(self.strikethrough, "\x1b[9m"@));
            acc = acc + seq_if(self.strikethrough, "\x1b[9m"@);
        }
        assert(acc == raw_codes(*self));
    }

    /// Writes the sequences that switch the style on, wrapped for `shell`.
    pub fn write_start_codes(&self, buf: &mut String, shell: Shell)
        ensures
            final(buf)@ == old(buf)@ + start_codes(*self, shell),
    {
        if !self.has_style() {
            assert(old(buf)@ + start_codes(*self, shell) =~= old(buf)@);
            return ;
        }
        let ghost start = buf@;
        if shell == Shell::Plain {
            self.write_raw_codes(buf);
        } else {
            let (open, close) = shell.delimiters();
            buf.append(open);
            self.write_raw_codes(buf);
            buf.append(close);
            assert(buf@ =~= start + start_codes(*self, shell));
        }
    }

    /// Writes the reset sequence, wrapped for `shell`.
    pub fn write_reset(&self, buf: &mut String, shell: Shell)
        ensures
            final(buf)@ == old(buf)@ + reset_codes(*self, shell),
    {
        if !self.has_style() {
            assert(old(buf)@ + reset_codes(*self, shell) =~= old(buf)@);
            return ;
        }
        let ghost start = buf@;
        if shell == Shell::Plain {
            buf.append("\x1b[0m");
        } else {
            let (open, close) = shell.delimiters();
            buf.append(open);
            buf.append("\x1b[0m");
            buf.append(close);
            assert(buf@ =~= start + reset_codes(*self, shell));
        }
    }
}


/// An outcome of parsing with its message as characters: `None` where parsing
/// aborts (a string slice that would cut a character in two).
pub open spec fn outcome_view<T>(o: Option<Result<T, String>>) -> Option<Result<T, Seq<char>>> {
    match o {
        Some(Ok(v)) => Some(Ok(v)),
        Some(Err(e)) => Some(Err(e@)),
        None => None,
    }
}

/// The value of a hexadecimal digit (ASCII `0-9`, `a-f`, `A-F`).
pub open spec fn hex_digit_value(c: char) -> Option<nat> {
    if '0' <= c && c <= '9' {
        Some((c as nat - 48) as nat)
    } else if 'a' <= c && c <= 'f' {
        Some((c as nat - 87) as nat)
    } else if 'A' <= c && c <= 'F' {
        Some((c as nat - 55) as nat)
    } else {
        None
    }
}

pub open spec fn all_hex_digits(ds: Seq<char>) -> bool {
    forall|k: int| 0 <= k < ds.len() ==> (#[trigger] hex_digit_value(ds[k])) is Some
}

/// The number that the hexadecimal digits `ds` denote.
pub open spec fn hex_value(ds: Seq<char>) -> nat
    decreases ds.len(),
{
    if ds.len() == 0 {
        0
    } else {
        hex_value(ds.drop_last()) * 16 + hex_digit_value(ds.last()).unwrap_or(0)
    }
}

/// `u8::from_str_radix(t, 16)`: an optional `+`, then at least one hexadecimal
/// digit, denoting at most 255.
pub open spec fn spec_u8_from_hex(t: Seq<char>) -> Option<u8> {
    let digits = if t.len() > 0 && t[0] == '+' {
        t.drop_first()
    } else {
        t
    };
    if digits.len() > 0 && all_hex_digits(digits) && hex_value(digits) <= 255 {
        Some(hex_value(digits) as u8)
    } else {
        None
    }
}

pub proof fn lemma_hex_value_prefix(ds: Seq<char>, k: int)
    requires
        0 <= k <= ds.len(),
    ensures
        hex_value(ds.take(k)) <= hex_value(ds),
    decreases ds.len(),
{
    if k < ds.len() {
        assert(ds.drop_last().take(k) =~= ds.take(k));
        lemma_hex_value_prefix(ds.drop_last(), k);
    } else {
        assert(ds.take(k) =~= ds);
    }
}

fn hex_digit(c: char) -> (r: Option<u32>)
    ensures
        match r {
            Some(v) => hex_digit_value(c) == Some(v as nat),
            None => hex_digit_value(c) is None,
        },
{
    if '0' <= c && c <= '9' {
        Some((c as u32) - 48)
    } else if 'a' <= c && c <= 'f' {
        Some((c as u32) - 87)
    } else if 'A' <= c && c <= 'F' {
        Some((c as u32) - 55)
    } else {
        None
    }
}

/// `u8::from_str_radix(&cs[lo..hi], 16)`.
fn u8_from_hex(cs: &Vec<char>, lo: usize, hi: usize) -> (r: Option<u8>)
    requires
        lo <= hi <= cs@.len(),
    ensures
        r == spec_u8_from_hex(cs@.subrange(lo as int, hi as int)),
{
    let ghost t = cs@.subrange(lo as int, hi as int);
    let start = if lo < hi && cs[lo] == '+' {
        lo + 1
    } else {
        lo
    };
    let ghost digits = cs@.subrange(start as int, hi as int);
    assert(digits =~= (if t.len() > 0 && t[0] == '+' {
        t.drop_first()
    } else {
        t
    }));
    if start == hi {
        return None;
    }
    let mut value: u32 = 0;
    let mut i: usize = start;
    assert(digits.take(0) =~= Seq::<char>::empty());
    while i < hi
        invariant
            lo <= start <= i <= hi <= cs@.len(),
            digits == cs@.subrange(start as int, hi as int),
            t == cs@.subrange(lo as int, hi as int),
            digits == (if t.len() > 0 && t[0] == '+' {
                t.drop_first()
            } else {
                t
            }),
            all_hex_digits(digits.take(i - start)),
            value == hex_value(digits.take(i - start)),
            value <= 255,
        decreases hi - i,
    {
        let ghost k = i - start;
        assert(digits.take(k + 1).drop_last() =~= digits.take(k));
        assert(digits[k] == cs@[i as int]);
        match hex_digit(cs[i]) {
            None => {
                assert(hex_digit_value(digits[k]) is None);
                assert(!all_hex_digits(digits));
                return None;
            },
            Some(d) => {
                let next = value * 16 + d;
                assert(next == hex_value(digits.take(k + 1)));
                if next > 255 {
                    proof {
                        if all_hex_digits(digits) {
                            lemma_hex_value_prefix(digits, k + 1);
                        }
                    }
                    assert(spec_u8_from_hex(t) is None);
                    return None;
                }
                value = next;
                i = i + 1;
                assert forall|j: int| 0 <= j < k + 1 implies (#[trigger] hex_digit_value(
                    digits.take(k + 1)[j],
                )) is Some by {
                    if j < k {
                        assert(digits.take(k + 1)[j] == digits.take(k)[j]);
                    }
                }
            },
        }
    }
    assert(digits.take(hi - start) =~= digits);
    Some(value as u8)
}

/// `s` without its leading `#` characters (`trim_start_matches('#')`).
pub open spec fn strip_hashes(s: Seq<char>) -> Seq<char> {
    s.skip(count_leading(s, '#') as int)
}

/// What parsing `#rrggbb` gives. The three byte pairs are cut at byte offsets 2
/// and 4 in turn; cutting inside a character aborts.
pub open spec fn spec_parse_hex_color(hex: Seq<char>) -> Option<Result<(u8, u8, u8), Seq<char>>> {
    let h = strip_hashes(hex);
    let msg = "Invalid hex color: "@ + h;
    if utf8_len(h) != 6 {
        Some(Err(msg))
    } else {
        match byte_boundary(h, 2) {
            None => None,
            Some(i) => match spec_u8_from_hex(h.subrange(0, i)) {
                None => Some(Err(msg)),
                Some(r) => match byte_boundary(h, 4) {
                    None => None,
                    Some(j) => match spec_u8_from_hex(h.subrange(i, j)) {
                        None => Some(Err(msg)),
                        Some(g) => match spec_u8_from_hex(h.subrange(j, h.len() as int)) {
                            None => Some(Err(msg)),
                            Some(b) => Some(Ok((r, g, b))),
                        },
                    },
                },
            },
        }
    }
}

fn parse_hex_color(cs: &Vec<char>, lo: usize, hi: usize) -> (r: Option<Result<(u8, u8, u8), String>>)
    requires
        lo <= hi <= cs@.len(),
    ensures
        outcome_view(r) == spec_parse_hex_color(cs@.subrange(lo as int, hi as int)),
{
    let ghost hex = cs@.subrange(lo as int, hi as int);
    let mut start: usize = lo;
    while start < hi && cs[start] == '#'
        invariant
            lo <= start <= hi <= cs@.len(),
            hex == cs@.subrange(lo as int, hi as int),
            forall|k: int| 0 <= k < start - lo ==> hex[k] == '#',
        decreases hi - start,
    {
        start = start + 1;
    }
    proof {
        lemma_count_leading(hex, '#', start - lo);
    }
    let ghost h = cs@.subrange(start as int, hi as int);
    assert(h =~= strip_hashes(hex));
    let mut msg = String::from_str("Invalid hex color: ");
    let tail = string_from_chars(cs, start, hi);
    msg.append(tail.as_str());
    let ghost m = msg@;
    assert(m == "Invalid hex color: "@ + h);
    match utf8_len_up_to(cs, start, hi, 6) {
        None => {
            return Some(Err(msg));
        },
        Some(n) => {
            if n != 6 {
                return Some(Err(msg));
            }
        },
    }
    let i = match find_byte_boundary(cs, start, hi, 2) {
        None => {
            return None;
        },
        Some(i) => i,
    };
    assert(cs@.subrange(start as int, start + i) =~= h.subrange(0, i as int));
    let r = match u8_from_hex(cs, start, start + i) {
        None => {
            return Some(Err(msg));
        },
        Some(r) => r,
    };
    let j = match find_byte_boundary(cs, start, hi, 4) {
        None => {
            return None;
        },
        Some(j) => j,
    };
    proof {
        if j < i {
            lemma_utf8_len_strict(h, j as int, i as int);
        }
    }
    assert(cs@.subrange(start + i, start + j) =~= h.subrange(i as int, j as int));
    let g = match u8_from_hex(cs, start + i, start + j) {
        None => {
            return Some(Err(msg));
        },
        Some(g) => g,
    };
    assert(cs@.subrange(start + j, hi as int) =~= h.subrange(j as int, h.len() as int));
    let b = match u8_from_hex(cs, start + j, hi) {
        None => {
            return Some(Err(msg));
        },
        Some(b) => b,
    };
    Some(Ok((r, g, b)))
}


/// What parsing a colour name or `#rrggbb` gives.
pub open spec fn spec_parse_color(v: Seq<char>) -> Option<Result<Color, Seq<char>>> {
    if v == "black"@ {
        Some(Ok(Color::Black))
    } else if v == "red"@ {
        Some(Ok(Color::Red))
    } else if v == "green"@ {
        Some(Ok(Color::Green))
    } else if v == "yellow"@ {
        Some(Ok(Color::Yellow))
    } else if v == "blue"@ {
        Some(Ok(Color::Blue))
    } else if v == "purple"@ || v == "magenta"@ {
        Some(Ok(Color::Purple))
    } else if v == "cyan"@ {
        Some(Ok(Color::Cyan))
    } else if v == "white"@ {
        Some(Ok(Color::White))
    } else if v.len() > 0 && v[0] == '#' {
        match spec_parse_hex_color(v) {
            Some(Ok((r, g, b))) => Some(Ok(Color::Rgb(r, g, b))),
            Some(Err(e)) => Some(Err(e)),
            None => None,
        }
    } else {
        Some(Err("Unknown style component: "@ + v))
    }
}

fn parse_color_in(cs: &Vec<char>, lo: usize, hi: usize) -> (r: Option<Result<Color, String>>)
    requires
        lo <= hi <= cs@.len(),
    ensures
        outcome_view(r) == spec_parse_color(cs@.subrange(lo as int, hi as int)),
{
    if slice_eq_str(cs, lo, hi, "black") {
        Some(Ok(Color::Black))
    } else if slice_eq_str(cs, lo, hi, "red") {
        Some(Ok(Color::Red))
    } else if slice_eq_str(cs, lo, hi, "green") {
        Some(Ok(Color::Green))
    } else if slice_eq_str(cs, lo, hi, "yellow") {
        Some(Ok(Color::Yellow))
    } else if slice_eq_str(cs, lo, hi, "blue") {
        Some(Ok(Color::Blue))
    } else if slice_eq_str(cs, lo, hi, "purple") || slice_eq_str(cs, lo, hi, "magenta") {
        Some(Ok(Color::Purple))
    } else if slice_eq_str(cs, lo, hi, "cyan") {
        Some(Ok(Color::Cyan))
    } else if slice_eq_str(cs, lo, hi, "white") {
        Some(Ok(Color::White))
    } else if lo < hi && cs[lo] == '#' {
        match parse_hex_color(cs, lo, hi) {
            Some(Ok((r, g, b))) => Some(Ok(Color::Rgb(r, g, b))),
            Some(Err(e)) => Some(Err(e)),
            None => None,
        }
    } else {
        let mut msg = String::from_str("Unknown style component: ");
        let v = string_from_chars(cs, lo, hi);
        msg.append(v.as_str());
        Some(Err(msg))
    }
}

/// The eight named colours in ANSI order.
pub open spec fn ansi_colors() -> Seq<Color> {
    seq![
        Color::Black,
        Color::Red,
        Color::Green,
        Color::Yellow,
        Color::Blue,
        Color::Purple,
        Color::Cyan,
        Color::White,
    ]
}

/// The `k`-th named colour in ANSI order is selected by `ESC [ 3k m` as the
/// foreground and by `ESC [ 4k m` as the background; a 24-bit colour by
/// `ESC [ 38;2;r;g;b m` and `ESC [ 48;2;r;g;b m`.
pub proof fn lemma_color_codes(r: u8, g: u8, b: u8)
    ensures
        forall|k: int|
            0 <= k < 8 ==> foreground_sequence(#[trigger] ansi_colors()[k]) == "\x1b[3"@ + seq![
                (48 + k) as char,
            ] + "m"@ && background_sequence(ansi_colors()[k]) == "\x1b[4"@ + seq![(48 + k) as char]
                + "m"@,
        foreground_sequence(Color::Rgb(r, g, b)) == "\x1b[38;2;"@ + u8_decimal(r) + ";"@
            + u8_decimal(g) + ";"@ + u8_decimal(b) + "m"@,
        background_sequence(Color::Rgb(r, g, b)) == "\x1b[48;2;"@ + u8_decimal(r) + ";"@
            + u8_decimal(g) + ";"@ + u8_decimal(b) + "m"@,
{
    reveal_strlit("\x1b[3");
    reveal_strlit("\x1b[4");
    reveal_strlit("m");
    reveal_strlit("\x1b[30m");
    reveal_strlit("\x1b[31m");
    reveal_strlit("\x1b[32m");
    reveal_strlit("\x1b[33m");
    reveal_strlit("\x1b[34m");
    reveal_strlit("\x1b[35m");
    reveal_strlit("\x1b[36m");
    reveal_strlit("\x1b[37m");
    reveal_strlit("\x1b[40m");
    reveal_strlit("\x1b[41m");
    reveal_strlit("\x1b[42m");
    reveal_strlit("\x1b[43m");
    reveal_strlit("\x1b[44m");
    reveal_strlit("\x1b[45m");
    reveal_strlit("\x1b[46m");
    reveal_strlit("\x1b[47m");
    assert forall|k: int| 0 <= k < 8 implies foreground_sequence(#[trigger] ansi_colors()[k])
        == "\x1b[3"@ + seq![(48 + k) as char] + "m"@ && background_sequence(ansi_colors()[k])
        == "\x1b[4"@ + seq![(48 + k) as char] + "m"@ by {
        let d = seq![(48 + k) as char];
        assert(foreground_sequence(ansi_colors()[k]) =~= "\x1b[3"@ + d + "m"@);
        assert(background_sequence(ansi_colors()[k]) =~= "\x1b[4"@ + d + "m"@);
    }
}

/// The colour names and the colours they name.
pub open spec fn named_colors() -> Seq<(Seq<char>, Color)> {
    seq![
        ("black"@, Color::Black),
        ("red"@, Color::Red),
        ("green"@, Color::Green),
        ("yellow"@, Color::Yellow),
        ("blue"@, Color::Blue),
        ("purple"@, Color::Purple),
        ("magenta"@, Color::Purple),
        ("cyan"@, Color::Cyan),
        ("white"@, Color::White),
    ]
}

/// Every colour name parses to the colour it names (`purple` and `magenta`
/// both to purple); any other text that does not start with `#` is an unknown
/// component.
pub proof fn lemma_color_names_parse(v: Seq<char>)
    ensures
        forall|k: int|
            0 <= k < named_colors().len() ==> spec_parse_color(#[trigger] named_colors()[k].0)
                == Some(Ok::<Color, Seq<char>>(named_colors()[k].1)),
        (forall|k: int| 0 <= k < named_colors().len() ==> #[trigger] named_colors()[k].0 != v)
            && !(v.len() > 0 && v[0] == '#') ==> spec_parse_color(v) == Some(
            Err::<Color, Seq<char>>("Unknown style component: "@ + v),
        ),
{
    reveal_strlit("black");
    reveal_strlit("red");
    reveal_strlit("green");
    reveal_strlit("yellow");
    reveal_strlit("blue");
    reveal_strlit("purple");
    reveal_strlit("magenta");
    reveal_strlit("cyan");
    reveal_strlit("white");
    let names = named_colors();
    assert(names[0].0 == "black"@);
    assert(names[1].0 == "red"@);
    assert(names[2].0 == "green"@);
    assert(names[3].0 == "yellow"@);
    assert(names[4].0 == "blue"@);
    assert(names[5].0 == "purple"@);
    assert(names[6].0 == "magenta"@);
    assert(names[7].0 == "cyan"@);
    assert(names[8].0 == "white"@);
    assert("red"@ != "black"@) by { assert("red"@.len() != "black"@.len()); }
    assert("green"@ != "black"@) by { assert("green"@[0] != "black"@[0]); }
    assert("green"@ != "red"@) by { assert("green"@.len() != "red"@.len()); }
    assert("yellow"@ != "black"@) by { assert("yellow"@.len() != "black"@.len()); }
    assert("yellow"@ != "red"@) by { assert("yellow"@.len() != "red"@.len()); }
    assert("yellow"@ != "green"@) by { assert("yellow"@.len() != "green"@.len()); }
    assert("blue"@ != "black"@) by { assert("blue"@.len() != "black"@.len()); }
    assert("blue"@ != "red"@) by { assert("blue"@.len() != "red"@.len()); }
    assert("blue"@ != "green"@) by { assert("blue"@.len() != "green"@.len()); }
    assert("blue"@ != "yellow"@) by { assert("blue"@.len() != "yellow"@.len()); }
    assert("purple"@ != "black"@) by { assert("purple"@.len() != "black"@.len()); }
    assert("purple"@ != "red"@) by { assert("purple"@.len() != "red"@.len()); }
    assert("purple"@ != "green"@) by { assert("purple"@.len() != "green"@.len()); }
    assert("purple"@ != "yellow"@) by { assert("purple"@[0] != "yellow"@[0]); }
    assert("purple"@ != "blue"@) by { assert("purple"@.len() != "blue"@.len()); }
    assert("magenta"@ != "black"@) by { assert("magenta"@.len() != "black"@.len()); }
    assert("magenta"@ != "red"@) by { assert("magenta"@.len() != "red"@.len()); }
    assert("magenta"@ != "green"@) by { assert("magenta"@.len() != "green"@.len()); }
    assert("magenta"@ != "yellow"@) by { assert("magenta"@.len() != "yellow"@.len()); }
    assert("magenta"@ != "blue"@) by { assert("magenta"@.len() != "blue"@.len()); }
    assert("cyan"@ != "black"@) by { assert("cyan"@.len() != "black"@.len()); }
    assert("cyan"@ != "red"@) by { assert("cyan"@.len() != "red"@.len()); }
    assert("cyan"@ != "green"@) by { assert("cyan"@.len() != "green"@.len()); }
    assert("cyan"@ != "yellow"@) by { assert("cyan"@.len() != "yellow"@.len()); }
    assert("cyan"@ != "blue"@) by { assert("cyan"@[0] != "blue"@[0]); }
    assert("cyan"@ != "purple"@) by { assert("cyan"@.len() != "purple"@.len()); }
    assert("cyan"@ != "magenta"@) by { assert("cyan"@.len() != "magenta"@.len()); }
    assert("white"@ != "black"@) by { assert("white"@[0] != "black"@[0]); }
    assert("white"@ != "red"@) by { assert("white"@.len() != "red"@.len()); }
    assert("white"@ != "green"@) by { assert("white"@[0] != "green"@[0]); }
    assert("white"@ != "yellow"@) by { assert("white"@.len() != "yellow"@.len()); }
    assert("white"@ != "blue"@) by { assert("white"@.len() != "blue"@.len()); }
    assert("white"@ != "purple"@) by { assert("white"@.len() != "purple"@.len()); }
    assert("white"@ != "magenta"@) by { assert("white"@.len() != "magenta"@.len()); }
    assert("white"@ != "cyan"@) by { assert("white"@.len() != "cyan"@.len()); }
    if (forall|k: int| 0 <= k < names.len() ==> #[trigger] names[k].0 != v) {
        assert(names[0].0 != v);
        assert(names[1].0 != v);
        assert(names[2].0 != v);
        assert(names[3].0 != v);
        assert(names[4].0 != v);
        assert(names[5].0 != v);
        assert(names[6].0 != v);
        assert(names[7].0 != v);
        assert(names[8].0 != v);
    }
}

proof fn lemma_color_name_style(name: Seq<char>, c: Color)
    requires
        name.len() > 0,
        forall|i: int| 0 <= i < name.len() ==> 'a' <= #[trigger] name[i] <= 'z',
        !is_attribute(name),
        spec_parse_color(name) == Some(Ok::<Color, Seq<char>>(c)),
    ensures
        spec_parse_style(name) == Some(Ok::<AnsiStyle, Seq<char>>(
            AnsiStyle { color: Some(c), ..plain_style() },
        )),
{
    crate::text::lemma_split_on_without_sep(name, '.');
    let parts = split_on(name, '.');
    assert(parts.drop_last() =~= Seq::<Seq<char>>::empty());
    assert(parts.last() == name);
    assert(!name.contains('+'));
    assert(spec_parse_parts(parts.drop_last()) == Some(Ok::<AnsiStyle, Seq<char>>(plain_style())));
}

/// A style string that is just a colour name sets that foreground colour and
/// nothing else.
pub proof fn lemma_color_name_styles()
    ensures
        forall|k: int|
            0 <= k < named_colors().len() ==> spec_parse_style(#[trigger] named_colors()[k].0)
                == Some(Ok::<AnsiStyle, Seq<char>>(
                AnsiStyle { color: Some(named_colors()[k].1), ..plain_style() },
            )),
{
    lemma_color_names_parse(Seq::empty());
    reveal_strlit("black");
    reveal_strlit("red");
    reveal_strlit("green");
    reveal_strlit("yellow");
    reveal_strlit("blue");
    reveal_strlit("purple");
    reveal_strlit("magenta");
    reveal_strlit("cyan");
    reveal_strlit("white");
    reveal_strlit("bold");
    reveal_strlit("italic");
    reveal_strlit("underline");
    reveal_strlit("dim");
    reveal_strlit("reverse");
    reveal_strlit("strikethrough");
    let names = named_colors();
    assert forall|k: int| 0 <= k < names.len() implies spec_parse_style(#[trigger] names[k].0)
        == Some(Ok::<AnsiStyle, Seq<char>>(AnsiStyle { color: Some(names[k].1), ..plain_style() })) by {
        let name = names[k].0;
        assert(forall|i: int| 0 <= i < name.len() ==> 'a' <= #[trigger] name[i] <= 'z');
        assert(!is_attribute(name));
        lemma_color_name_style(name, names[k].1);
    }
}

/// Parses a colour name (`black`, `red`, `green`, `yellow`, `blue`, `purple`
/// or `magenta`, `cyan`, `white`; case matters) or a `#` hex colour.
pub fn parse_color(value: &str) -> (r: Result<Color, String>)
    requires
        spec_parse_color(value@) is Some,
    ensures
        Some(match r {
            Ok(c) => Ok::<Color, Seq<char>>(c),
            Err(e) => Err(e@),
        }) == spec_parse_color(value@),
{
    let cs = chars_of(value);
    let n = cs.len();
    assert(cs@.subrange(0, n as int) =~= cs@);
    match parse_color_in(&cs, 0, n) {
        Some(r) => r,
        None => {
            assert(false);
            Err(String::new())
        },
    }
}

/// `st` with the foreground colour set from `c`, or the failure of `c`.
pub open spec fn with_color(
    st: AnsiStyle,
    c: Option<Result<Color, Seq<char>>>,
) -> Option<Result<AnsiStyle, Seq<char>>> {
    match c {
        Some(Ok(col)) => Some(Ok(AnsiStyle { color: Some(col), ..st })),
        Some(Err(e)) => Some(Err(e)),
        None => None,
    }
}

/// `st` with the background colour set from `c`, or the failure of `c`.
pub open spec fn with_background(
    st: AnsiStyle,
    c: Option<Result<Color, Seq<char>>>,
) -> Option<Result<AnsiStyle, Seq<char>>> {
    match c {
        Some(Ok(col)) => Some(Ok(AnsiStyle { background: Some(col), ..st })),
        Some(Err(e)) => Some(Err(e)),
        None => None,
    }
}

/// What one `.`-separated component does to the style: an attribute name sets
/// the attribute, `fg+bg` sets the colours (either side of `+` may name the
/// colour; the background must be given), anything else names the foreground.
pub open spec fn spec_apply_part(st: AnsiStyle, part: Seq<char>) -> Option<
    Result<AnsiStyle, Seq<char>>,
> {
    if part == "bold"@ {
        Some(Ok(AnsiStyle { bold: true, ..st }))
    } else if part == "italic"@ {
        Some(Ok(AnsiStyle { italic: true, ..st }))
    } else if part == "underline"@ {
        Some(Ok(AnsiStyle { underline: true, ..st }))
    } else if part == "dim"@ {
        Some(Ok(AnsiStyle { dim: true, ..st }))
    } else if part == "reverse"@ {
        Some(Ok(AnsiStyle { reverse: true, ..st }))
    } else if part == "strikethrough"@ {
        Some(Ok(AnsiStyle { strikethrough: true, ..st }))
    } else if part.contains('+') {
        let k = first_index(part, '+');
        let fg = part.take(k);
        let bg = part.skip(k + 1);
        let after_fg = if fg.len() == 0 {
            Some(Ok(st))
        } else {
            with_color(st, spec_parse_color(fg))
        };
        match after_fg {
            Some(Ok(st1)) => if bg.len() == 0 {
                Some(Err("Unknown style component: "@ + part))
            } else {
                with_background(st1, spec_parse_color(bg))
            },
            other => other,
        }
    } else {
        with_color(st, spec_parse_color(part))
    }
}

fn apply_part(st: AnsiStyle, part: &Vec<char>) -> (r: Option<Result<AnsiStyle, String>>)
    ensures
        outcome_view(r) == spec_apply_part(st, part@),
{
    let n = part.len();
    assert(part@.subrange(0, n as int) =~= part@);
    if slice_eq_str(part, 0, n, "bold") {
        Some(Ok(AnsiStyle { bold: true, ..st }))
    } else if slice_eq_str(part, 0, n, "italic") {
        Some(Ok(AnsiStyle { italic: true, ..st }))
    } else if slice_eq_str(part, 0, n, "underline") {
        Some(Ok(AnsiStyle { underline: true, ..st }))
    } else if slice_eq_str(part, 0, n, "dim") {
        Some(Ok(AnsiStyle { dim: true, ..st }))
    } else if slice_eq_str(part, 0, n, "reverse") {
        Some(Ok(AnsiStyle { reverse: true, ..st }))
    } else if slice_eq_str(part, 0, n, "strikethrough") {
        Some(Ok(AnsiStyle { strikethrough: true, ..st }))
    } else {
        let k = find_char(part, 0, n, '+');
        if k < n {
            assert(part@.take(k as int) =~= part@.subrange(0, k as int));
            assert(part@.skip(k + 1) =~= part@.subrange(k + 1, n as int));
            let mut st1 = st;
            if k > 0 {
                match parse_color_in(part, 0, k) {
                    Some(Ok(c)) => {
                        st1 = AnsiStyle { color: Some(c), ..st };
                    },
                    Some(Err(e)) => {
                        return Some(Err(e));
                    },
                    None => {
                        return None;
                    },
                }
            }
            if k + 1 == n {
                let mut msg = String::from_str("Unknown style component: ");
                let p = string_from_chars(part, 0, n);
                msg.append(p.as_str());
                return Some(Err(msg));
            }
            match parse_color_in(part, k + 1, n) {
                Some(Ok(c)) => Some(Ok(AnsiStyle { background: Some(c), ..st1 })),
                Some(Err(e)) => Some(Err(e)),
                None => None,
            }
        } else {
            match parse_color_in(part, 0, n) {
                Some(Ok(c)) => Some(Ok(AnsiStyle { color: Some(c), ..st })),
                Some(Err(e)) => Some(Err(e)),
                None => None,
            }
        }
    }
}

/// The style that the components `parts` give in turn, starting from the plain
/// style; the first failure stops the parse.
pub open spec fn spec_parse_parts(parts: Seq<Seq<char>>) -> Option<Result<AnsiStyle, Seq<char>>>
    decreases parts.len(),
{
    if parts.len() == 0 {
        Some(Ok(plain_style()))
    } else {
        match spec_parse_parts(parts.drop_last()) {
            Some(Ok(st)) => spec_apply_part(st, parts.last()),
            other => other,
        }
    }
}

/// What parsing a style string gives: the empty string is the plain style,
/// anything else is a `.`-separated list of components. `None` where the parse
/// aborts.
pub open spec fn spec_parse_style(s: Seq<char>) -> Option<Result<AnsiStyle, Seq<char>>> {
    if s.len() == 0 {
        Some(Ok(plain_style()))
    } else {
        spec_parse_parts(split_on(s, '.'))
    }
}

/// `b` laid over `a`: the colours of `b` where it has them, those of `a`
/// otherwise, and every attribute that either of them sets.
pub open spec fn overlay(a: AnsiStyle, b: AnsiStyle) -> AnsiStyle {
    AnsiStyle {
        color: if b.color is Some {
            b.color
        } else {
            a.color
        },
        background: if b.background is Some {
            b.background
        } else {
            a.background
        },
        bold: a.bold || b.bold,
        italic: a.italic || b.italic,
        underline: a.underline || b.underline,
        dim: a.dim || b.dim,
        reverse: a.reverse || b.reverse,
        strikethrough: a.strikethrough || b.strikethrough,
    }
}

/// The style that the components `parts` give in turn, starting from `st`;
/// the first failure stops the parse.
pub open spec fn parse_parts_from(st: AnsiStyle, parts: Seq<Seq<char>>) -> Option<
    Result<AnsiStyle, Seq<char>>,
>
    decreases parts.len(),
{
    if parts.len() == 0 {
        Some(Ok(st))
    } else {
        match parse_parts_from(st, parts.drop_last()) {
            Some(Ok(x)) => spec_apply_part(x, parts.last()),
            other => other,
        }
    }
}

/// `outcome` with a parsed style laid over `st`.
pub open spec fn over(st: AnsiStyle, outcome: Option<Result<AnsiStyle, Seq<char>>>) -> Option<
    Result<AnsiStyle, Seq<char>>,
> {
    match outcome {
        Some(Ok(b)) => Some(Ok(overlay(st, b))),
        other => other,
    }
}

proof fn lemma_apply_part_over(st: AnsiStyle, part: Seq<char>)
    ensures
        spec_apply_part(st, part) == over(st, spec_apply_part(plain_style(), part)),
{
    if part.contains('+') {
        let k = first_index(part, '+');
        let fg = part.take(k);
        let bg = part.skip(k + 1);
        let c1 = spec_parse_color(fg);
        let c2 = spec_parse_color(bg);
        if fg.len() > 0 {
            if let Some(Ok(col)) = c1 {
                let st1 = AnsiStyle { color: Some(col), ..st };
                let p1 = AnsiStyle { color: Some(col), ..plain_style() };
                assert(overlay(st, p1) == st1);
                if let Some(Ok(col2)) = c2 {
                    assert(overlay(st, AnsiStyle { background: Some(col2), ..p1 }) == AnsiStyle {
                        background: Some(col2),
                        ..st1
                    });
                }
            }
        } else {
            if let Some(Ok(col2)) = c2 {
                assert(overlay(st, AnsiStyle { background: Some(col2), ..plain_style() })
                    == AnsiStyle { background: Some(col2), ..st });
            }
        }
    }
}

proof fn lemma_overlay_assoc(a: AnsiStyle, b: AnsiStyle, c: AnsiStyle)
    ensures
        overlay(overlay(a, b), c) == overlay(a, overlay(b, c)),
{
}

proof fn lemma_parse_parts_from_plain(parts: Seq<Seq<char>>)
    ensures
        parse_parts_from(plain_style(), parts) == spec_parse_parts(parts),
    decreases parts.len(),
{
    if parts.len() > 0 {
        lemma_parse_parts_from_plain(parts.drop_last());
    }
}

proof fn lemma_parse_parts_from_over(st: AnsiStyle, parts: Seq<Seq<char>>)
    ensures
        parse_parts_from(st, parts) == over(st, parse_parts_from(plain_style(), parts)),
    decreases parts.len(),
{
    if parts.len() > 0 {
        lemma_parse_parts_from_over(st, parts.drop_last());
        match parse_parts_from(plain_style(), parts.drop_last()) {
            Some(Ok(b)) => {
                lemma_apply_part_over(b, parts.last());
                lemma_apply_part_over(overlay(st, b), parts.last());
                match spec_apply_part(plain_style(), parts.last()) {
                    Some(Ok(c)) => {
                        lemma_overlay_assoc(st, b, c);
                    },
                    _ => {},
                }
            },
            _ => {},
        }
    } else {
        assert(overlay(st, plain_style()) == st);
    }
}

proof fn lemma_parse_parts_concat(p1: Seq<Seq<char>>, p2: Seq<Seq<char>>)
    ensures
        spec_parse_parts(p1 + p2) == match spec_parse_parts(p1) {
            Some(Ok(a)) => parse_parts_from(a, p2),
            other => other,
        },
    decreases p2.len(),
{
    if p2.len() == 0 {
        assert(p1 + p2 =~= p1);
    } else {
        assert((p1 + p2).drop_last() =~= p1 + p2.drop_last());
        assert((p1 + p2).last() == p2.last());
        lemma_parse_parts_concat(p1, p2.drop_last());
    }
}

/// Parsing two non-empty style strings joined by `.` gives the first failure
/// of the two parses, or the second style laid over the first.
pub proof fn lemma_joined_styles_overlay(s1: Seq<char>, s2: Seq<char>)
    requires
        s1.len() > 0,
        s2.len() > 0,
    ensures
        spec_parse_style(s1 + seq!['.'] + s2) == match spec_parse_style(s1) {
            Some(Ok(a)) => over(a, spec_parse_style(s2)),
            other => other,
        },
{
    crate::text::lemma_split_on_join(s1, s2, '.');
    let p1 = split_on(s1, '.');
    let p2 = split_on(s2, '.');
    lemma_parse_parts_concat(p1, p2);
    match spec_parse_parts(p1) {
        Some(Ok(a)) => {
            lemma_parse_parts_from_over(a, p2);
            lemma_parse_parts_from_plain(p2);
        },
        _ => {},
    }
}

/// Whether the style component `part` parses on its own.
pub open spec fn component_parses(part: Seq<char>) -> bool {
    spec_apply_part(plain_style(), part) matches Some(Ok(_))
}

proof fn lemma_parse_parts_ok(ps: Seq<Seq<char>>)
    ensures
        (spec_parse_parts(ps) matches Some(Ok(_))) <==> forall|k: int|
            0 <= k < ps.len() ==> component_parses(#[trigger] ps[k]),
    decreases ps.len(),
{
    if ps.len() > 0 {
        let init = ps.drop_last();
        lemma_parse_parts_ok(init);
        assert forall|k: int| 0 <= k < init.len() implies #[trigger] init[k] == ps[k] by {}
        if let Some(Ok(st)) = spec_parse_parts(init) {
            lemma_apply_part_over(st, ps.last());
        }
        if forall|k: int| 0 <= k < ps.len() ==> component_parses(#[trigger] ps[k]) {
            assert forall|k: int| 0 <= k < init.len() implies component_parses(#[trigger] init[k]) by {
                assert(component_parses(ps[k]));
            }
            assert(component_parses(ps[ps.len() - 1]));
        } else {
            let k = choose|k: int| 0 <= k < ps.len() && !component_parses(#[trigger] ps[k]);
            if k < ps.len() - 1 {
                assert(!component_parses(init[k]));
            }
        }
    }
}

/// The attribute names of style components.
pub open spec fn is_attribute(p: Seq<char>) -> bool {
    p == "bold"@ || p == "italic"@ || p == "underline"@ || p == "dim"@ || p == "reverse"@ || p
        == "strikethrough"@
}

/// Whether `c` parses as a colour.
pub open spec fn color_parses(c: Seq<char>) -> bool {
    spec_parse_color(c) matches Some(Ok(_))
}

/// A component parses on its own exactly when it is an attribute name; or it
/// holds a `+`, the text before the first `+` is empty or a colour, and the
/// text after it is a non-empty colour; or it holds no `+` and is a colour.
pub proof fn lemma_component_parses_when(p: Seq<char>)
    ensures
        component_parses(p) <==> {
            ||| is_attribute(p)
            ||| p.contains('+') && (p.take(first_index(p, '+')).len() == 0 || color_parses(
                p.take(first_index(p, '+')),
            )) && p.skip(first_index(p, '+') + 1).len() > 0 && color_parses(
                p.skip(first_index(p, '+') + 1),
            )
            ||| !p.contains('+') && color_parses(p)
        },
{
}

/// A style string parses exactly when it is empty or each of its
/// `.`-separated components parses on its own.
pub proof fn lemma_style_parses_by_component(s: Seq<char>)
    ensures
        (spec_parse_style(s) matches Some(Ok(_))) <==> (s.len() == 0 || forall|k: int|
            0 <= k < split_on(s, '.').len() ==> component_parses(#[trigger] split_on(s, '.')[k])),
{
    lemma_parse_parts_ok(split_on(s, '.'));
}

proof fn lemma_parse_parts_settled(ps: Seq<Seq<char>>, i: int)
    requires
        0 <= i <= ps.len(),
        !(spec_parse_parts(ps.take(i)) matches Some(Ok(_))),
    ensures
        spec_parse_parts(ps) == spec_parse_parts(ps.take(i)),
    decreases ps.len(),
{
    if i < ps.len() {
        assert(ps.drop_last().take(i) =~= ps.take(i));
        lemma_parse_parts_settled(ps.drop_last(), i);
    } else {
        assert(ps.take(i) =~= ps);
    }
}

impl AnsiStyle {
    /// Parses a style string, or gives `None` on the inputs on which the
    /// parse aborts (a `#` colour of six bytes whose byte pairs would cut a
    /// character in two).
    pub fn parse_checked(style_str: &str) -> (r: Option<Result<AnsiStyle, String>>)
        ensures
            outcome_view(r) == spec_parse_style(style_str@),
    {
        let cs = chars_of(style_str);
        if cs.len() == 0 {
            return Some(Ok(AnsiStyle::default()));
        }
        let parts = split_chars(&cs, '.');
        let ghost ps = views(parts@);
        let mut style = AnsiStyle::default();
        let mut i: usize = 0;
        assert(ps.take(0) =~= Seq::<Seq<char>>::empty());
        while i < parts.len()
            invariant
                ps == views(parts@),
                ps == split_on(cs@, '.'),
                cs@ == style_str@,
                cs@.len() > 0,
                i <= parts@.len(),
                spec_parse_parts(ps.take(i as int)) == Some(Ok::<AnsiStyle, Seq<char>>(style)),
            decreases parts@.len() - i,
        {
            assert(ps.take(i + 1).drop_last() =~= ps.take(i as int));
            assert(ps[i as int] == parts@[i as int]@);
            assert(spec_parse_parts(ps.take(i + 1)) == spec_apply_part(style, ps[i as int]));
            match apply_part(style, &parts[i]) {
                Some(Ok(next)) => {
                    style = next;
                },
                other => {
                    proof {
                        lemma_parse_parts_settled(ps, i + 1);
                    }
                    return other;
                },
            }
            i = i + 1;
        }
        assert(ps.take(i as int) =~= ps);
        Some(Ok(style))
    }

    /// Whether parsing `style_str` would abort.
    pub fn parse_aborts(style_str: &str) -> (r: bool)
        ensures
            r == (spec_parse_style(style_str@) is None),
    {
        AnsiStyle::parse_checked(style_str).is_none()
    }
}

/// A style that can be parsed from a string and applied to text.
pub trait ModuleStyle: Sized {
    /// The style strings on which `parse` is defined.
    spec fn parse_is_defined(style_str: Seq<char>) -> bool;

    fn parse(style_str: &str) -> Result<Self, String>
        requires
            Self::parse_is_defined(style_str@),
    ;

    /// The text that `apply` makes of `text`.
    spec fn applied(&self, text: Seq<char>) -> Seq<char>;

    fn apply(&self, text: &str) -> (r: String)
        ensures
            r@ == self.applied(text@),
    ;

    /// Applies the style for `shell`; unless a style says otherwise, the
    /// shell makes no difference.
    fn apply_with_shell(&self, text: &str, shell: Shell) -> (r: String)
        default_ensures
            r@ == self.applied(text@),
    {
        let _ = shell;
        self.apply(text)
    }
}

impl ModuleStyle for AnsiStyle {
    open spec fn parse_is_defined(style_str: Seq<char>) -> bool {
        spec_parse_style(style_str) is Some
    }

    open spec fn applied(&self, text: Seq<char>) -> Seq<char> {
        styled_text(*self, text, Shell::Plain)
    }

    fn parse(style_str: &str) -> (r: Result<AnsiStyle, String>)
        ensures
            Some(match r {
                Ok(st) => Ok::<AnsiStyle, Seq<char>>(st),
                Err(e) => Err(e@),
            }) == spec_parse_style(style_str@),
    {
        match AnsiStyle::parse_checked(style_str) {
            Some(r) => r,
            None => {
                assert(false);
                Ok(AnsiStyle::default())
            },
        }
    }

    fn apply(&self, text: &str) -> (r: String)
        ensures
            r@ == styled_text(*self, text@, Shell::Plain),
    {
        self.apply_with_shell(text, Shell::Plain)
    }

    fn apply_with_shell(&self, text: &str, shell: Shell) -> (r: String)
        ensures
            r@ == styled_text(*self, text@, shell),
    {
        if !self.has_style() {
            return String::from_str(text);
        }
        let mut output = String::new();
        self.write_start_codes(&mut output, shell);
        output.append(text);
        self.write_reset(&mut output, shell);
        assert(output@ =~= styled_text(*self, text@, shell));
        output
    }
}


/// What is known of the `NO_COLOR` setting: not looked up yet, or looked up
/// and found absent or present.
#[derive(Debug, Clone, Copy, PartialEq, Eq, Structural)]
pub enum NoColorState {
    Unknown,
    Absent,
    Present,
}

/// One query of the cached `NO_COLOR` flag: a known answer is returned as it
/// is; otherwise `detected` is the answer and is remembered.
pub open spec fn no_color_step(state: NoColorState, detected: bool) -> (bool, NoColorState) {
    match state {
        NoColorState::Present => (true, NoColorState::Present),
        NoColorState::Absent => (false, NoColorState::Absent),
        NoColorState::Unknown => (detected, if detected {
            NoColorState::Present
        } else {
            NoColorState::Absent
        }),
    }
}

/// Whether colour is disabled, looking the setting up through `detect` only
/// while it is not known yet.
pub fn global_no_color<F: FnOnce() -> bool>(state: &mut NoColorState, detect: F) -> (r: bool)
    requires
        *old(state) == NoColorState::Unknown ==> detect.requires(()),
    ensures
        *old(state) != NoColorState::Unknown ==> (r, *final(state)) == no_color_step(
            *old(state),
            r,
        ),
        *old(state) != NoColorState::Unknown ==> *final(state) == *old(state),
        *old(state) == NoColorState::Unknown ==> detect.ensures((), r) && (r, *final(state))
            == no_color_step(*old(state), r),
{
    match *state {
        NoColorState::Present => true,
        NoColorState::Absent => false,
        NoColorState::Unknown => {
            let detected = detect();
            *state = if detected {
                NoColorState::Present
            } else {
                NoColorState::Absent
            };
            detected
        },
    }
}

/// Forgets the looked-up setting, so that the next query looks it up again.
pub fn reset_global_no_color_for_tests(state: &mut NoColorState)
    ensures
        *final(state) == NoColorState::Unknown,
{
    *state = NoColorState::Unknown;
}

/// Once the flag has been looked up, every later query gives the same answer,
/// whatever a new lookup would find, until the state is reset.
pub proof fn lemma_no_color_is_cached(state: NoColorState, first: bool, later: bool)
    ensures
        no_color_step(no_color_step(state, first).1, later).0 == no_color_step(state, first).0,
        no_color_step(no_color_step(state, first).1, later).1 == no_color_step(state, first).1,
{
}

/// After a reset the flag is looked up afresh.
pub proof fn lemma_no_color_reset_looks_up(detected: bool)
    ensures
        no_color_step(NoColorState::Unknown, detected).0 == detected,
{
}


/// The empty style string parses to the plain style, and the plain style
/// leaves any text as it is, whatever the shell.
pub proof fn lemma_plain_style_leaves_text(text: Seq<char>, shell: Shell)
    ensures
        spec_parse_style(Seq::empty()) == Some(Ok::<AnsiStyle, Seq<char>>(plain_style())),
        styled_text(plain_style(), text, shell) == text,
{
}

/// A styled text is the text between the style's start and reset sequences,
/// and without a shell those are the bare escape sequences.
pub proof fn lemma_styled_text_frames_text(st: AnsiStyle, text: Seq<char>)
    requires
        has_any_style(st),
    ensures
        styled_text(st, text, Shell::Plain) == raw_codes(st) + text + "\x1b[0m"@,
{
}

/// Which shell a name denotes depends only on the name once trimmed and
/// lower-cased.
pub proof fn lemma_shell_name_normalised(a: Seq<char>, b: Seq<char>)
    requires
        ascii_lower_all(trim(a)) == ascii_lower_all(trim(b)),
    ensures
        spec_shell_from_str(a) == spec_shell_from_str(b),
{
}

} // verus!

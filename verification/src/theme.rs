//! Theme colors: hex color values and the Omarchy `colors.toml` palette.

use vstd::prelude::*;
use vstd::string::StringSliceAdditionalSpecFns;
use vstd::utf8::*;

use crate::links::{first_of, first_of_exec};
use crate::paths::{join_path, path_join};
use crate::recovery::opt_view;
use crate::text::{
    chars_equal_str, chars_of, is_white_space, push_char, string_from, string_of, trim,
    trim_bounds,
};

verus! {

broadcast use vstd::string::group_string_axioms;

// ---------------------------------------------------------------------------
// Hex colors
// ---------------------------------------------------------------------------

pub open spec fn is_quote(c: char) -> bool {
    c == '"' || c == '\''
}

/// `s` without its leading quote characters.
pub open spec fn trim_quotes_start(s: Seq<char>) -> Seq<char>
    decreases s.len(),
{
    if s.len() > 0 && is_quote(s[0]) {
        trim_quotes_start(s.drop_first())
    } else {
        s
    }
}

/// `s` without its trailing quote characters.
pub open spec fn trim_quotes_end(s: Seq<char>) -> Seq<char>
    decreases s.len(),
{
    if s.len() > 0 && is_quote(s.last()) {
        trim_quotes_end(s.drop_last())
    } else {
        s
    }
}

/// The value of a hexadecimal digit byte.
pub open spec fn hex_digit(b: u8) -> Option<nat> {
    if 48 <= b <= 57 {
        Some((b - 48) as nat)
    } else if 97 <= b <= 102 {
        Some((b - 87) as nat)
    } else if 65 <= b <= 70 {
        Some((b - 55) as nat)
    } else {
        None
    }
}

/// A two-byte hex number as `u8::from_str_radix(_, 16)` reads it: two
/// digits, or `+` and one digit.
pub open spec fn pair_value(b0: u8, b1: u8) -> Option<nat> {
    if b0 == 43 {
        hex_digit(b1)
    } else {
        match (hex_digit(b0), hex_digit(b1)) {
            (Some(x), Some(y)) => Some(16 * x + y),
            _ => None,
        }
    }
}

/// The bytes after `#`, once white space and quotes are trimmed off.
pub open spec fn hex_digits(value: Seq<char>) -> Option<Seq<u8>> {
    let t = trim_quotes_end(trim_quotes_start(trim(value)));
    if t.len() > 0 && t[0] == '#' {
        Some(encode_utf8(t.skip(1)))
    } else {
        None
    }
}

/// Whether reading the digits would cut a character in two.
pub open spec fn hex_color_panics(value: Seq<char>) -> bool {
    match hex_digits(value) {
        None => false,
        Some(h) => if h.len() == 3 {
            !is_char_boundary(h, 1) || (hex_digit(h[0]) is Some && !is_char_boundary(h, 2))
        } else if h.len() == 6 {
            !is_char_boundary(h, 2) || (pair_value(h[0], h[1]) is Some && !is_char_boundary(h, 4))
        } else if h.len() == 8 {
            !is_char_boundary(h, 2) || (pair_value(h[0], h[1]) is Some && (!is_char_boundary(h, 4)
                || (pair_value(h[2], h[3]) is Some && !is_char_boundary(h, 6))))
        } else {
            false
        },
    }
}

/// The channels of `#rgb`, `#rrggbb` or `#rrggbbaa` (alpha 255 when absent),
/// after trimming white space and quotes.
pub open spec fn parse_hex_spec(value: Seq<char>) -> Option<(u8, u8, u8, u8)> {
    match hex_digits(value) {
        None => None,
        Some(h) => if h.len() == 3 {
            match (hex_digit(h[0]), hex_digit(h[1]), hex_digit(h[2])) {
                (Some(r), Some(g), Some(b)) => Some(
                    ((17 * r) as u8, (17 * g) as u8, (17 * b) as u8, 255u8),
                ),
                _ => None,
            }
        } else if h.len() == 6 {
            match (pair_value(h[0], h[1]), pair_value(h[2], h[3]), pair_value(h[4], h[5])) {
                (Some(r), Some(g), Some(b)) => Some((r as u8, g as u8, b as u8, 255u8)),
                _ => None,
            }
        } else if h.len() == 8 {
            match (
                pair_value(h[0], h[1]),
                pair_value(h[2], h[3]),
                pair_value(h[4], h[5]),
                pair_value(h[6], h[7]),
            ) {
                (Some(r), Some(g), Some(b), Some(a)) => Some((r as u8, g as u8, b as u8, a as u8)),
                _ => None,
            }
        } else {
            None
        },
    }
}

fn hex_digit_exec(b: u8) -> (r: Option<u8>)
    ensures
        match hex_digit(b) {
            Some(x) => r == Some(x as u8),
            None => r is None,
        },
{
    if 48 <= b && b <= 57 {
        Some(b - 48)
    } else if 97 <= b && b <= 102 {
        Some(b - 87)
    } else if 65 <= b && b <= 70 {
        Some(b - 55)
    } else {
        None
    }
}

fn pair_value_exec(b0: u8, b1: u8) -> (r: Option<u8>)
    ensures
        match pair_value(b0, b1) {
            Some(x) => r == Some(x as u8) && x <= 255,
            None => r is None,
        },
{
    if b0 == 43 {
        return hex_digit_exec(b1);
    }
    match (hex_digit_exec(b0), hex_digit_exec(b1)) {
        (Some(x), Some(y)) => Some(16 * x + y),
        _ => None,
    }
}

/// The digits after `#`, as a string, if the trimmed value starts with `#`.
fn hex_digits_exec(value: &str) -> (r: Option<String>)
    ensures
        match hex_digits(value@) {
            Some(h) => r matches Some(s) && encode_utf8(s@) == h,
            None => r is None,
        },
{
    let v = chars_of(value);
    let (a, b) = trim_bounds(&v, 0, v.len());
    assert(v@.subrange(0, v.len() as int) =~= v@);
    let mut a2 = a;
    while a2 < b && (v[a2] == '"' || v[a2] == '\'')
        invariant
            a <= a2 <= b <= v.len(),
            trim_quotes_start(v@.subrange(a as int, b as int)) == trim_quotes_start(
                v@.subrange(a2 as int, b as int),
            ),
        decreases b - a2,
    {
        assert(v@.subrange(a2 as int, b as int).drop_first() =~= v@.subrange(a2 + 1, b as int));
        a2 = a2 + 1;
    }
    let mut b2 = b;
    while b2 > a2 && (v[b2 - 1] == '"' || v[b2 - 1] == '\'')
        invariant
            a2 <= b2 <= b <= v.len(),
            trim_quotes_end(v@.subrange(a2 as int, b as int)) == trim_quotes_end(
                v@.subrange(a2 as int, b2 as int),
            ),
        decreases b2 - a2,
    {
        assert(v@.subrange(a2 as int, b2 as int).drop_last() =~= v@.subrange(a2 as int, b2 - 1));
        b2 = b2 - 1;
    }
    if !(a2 < b2 && v[a2] == '#') {
        return None;
    }
    assert(v@.subrange(a2 as int, b2 as int).skip(1) =~= v@.subrange(a2 + 1, b2 as int));
    Some(string_of(&v, a2 + 1, b2))
}

/// Whether [`parse_hex_rgba`] can read `value` without cutting a character.
pub fn hex_color_readable(value: &str) -> (r: bool)
    ensures
        r == !hex_color_panics(value@),
{
    match hex_digits_exec(value) {
        None => true,
        Some(hex) => {
            let s = hex.as_str();
            let h = s.as_bytes();
            if h.len() == 3 {
                s.is_char_boundary(1) && (hex_digit_exec(h[0]).is_none() || s.is_char_boundary(
                    2,
                ))
            } else if h.len() == 6 {
                s.is_char_boundary(2) && (pair_value_exec(h[0], h[1]).is_none()
                    || s.is_char_boundary(4))
            } else if h.len() == 8 {
                s.is_char_boundary(2) && (pair_value_exec(h[0], h[1]).is_none() || (
                s.is_char_boundary(4) && (pair_value_exec(h[2], h[3]).is_none()
                    || s.is_char_boundary(6))))
            } else {
                true
            }
        },
    }
}

/// The red, green, blue and alpha bytes of a `#rgb`, `#rrggbb` or
/// `#rrggbbaa` color (quotes and white space around it are ignored).
pub fn parse_hex_rgba(value: &str) -> (r: Option<(u8, u8, u8, u8)>)
    requires
        !hex_color_panics(value@),
    ensures
        r == parse_hex_spec(value@),
{
    let hex = match hex_digits_exec(value) {
        Some(h) => h,
        None => {
            return None;
        },
    };
    let h = hex.as_str().as_bytes();
    if h.len() == 3 {
        let r = match hex_digit_exec(h[0]) {
            Some(x) => x,
            None => {
                return None;
            },
        };
        let g = match hex_digit_exec(h[1]) {
            Some(x) => x,
            None => {
                return None;
            },
        };
        let b = match hex_digit_exec(h[2]) {
            Some(x) => x,
            None => {
                return None;
            },
        };
        Some((17 * r, 17 * g, 17 * b, 255))
    } else if h.len() == 6 {
        let r = match pair_value_exec(h[0], h[1]) {
            Some(x) => x,
            None => {
                return None;
            },
        };
        let g = match pair_value_exec(h[2], h[3]) {
            Some(x) => x,
            None => {
                return None;
            },
        };
        let b = match pair_value_exec(h[4], h[5]) {
            Some(x) => x,
            None => {
                return None;
            },
        };
        Some((r, g, b, 255))
    } else if h.len() == 8 {
        let r = match pair_value_exec(h[0], h[1]) {
            Some(x) => x,
            None => {
                return None;
            },
        };
        let g = match pair_value_exec(h[2], h[3]) {
            Some(x) => x,
            None => {
                return None;
            },
        };
        let b = match pair_value_exec(h[4], h[5]) {
            Some(x) => x,
            None => {
                return None;
            },
        };
        let a = match pair_value_exec(h[6], h[7]) {
            Some(x) => x,
            None => {
                return None;
            },
        };
        Some((r, g, b, a))
    } else {
        None
    }
}

// ---------------------------------------------------------------------------
// Hex colors as one number
// ---------------------------------------------------------------------------

/// The value of a run of hexadecimal digit bytes.
pub open spec fn hex_number(d: Seq<u8>) -> nat
    decreases d.len(),
{
    if d.len() == 0 {
        0
    } else {
        16 * hex_number(d.drop_last()) + match hex_digit(d.last()) {
            Some(x) => x,
            None => 0,
        }
    }
}

pub open spec fn all_hex(d: Seq<u8>) -> bool {
    forall|i: int| 0 <= i < d.len() ==> hex_digit(#[trigger] d[i]) is Some
}

/// What `u32::from_str_radix(_, 16)` reads from these bytes: hexadecimal
/// digits, possibly after one `+`, whose value fits in `u32`.
pub open spec fn u32_from_hex(s: Seq<u8>) -> Option<u32> {
    let d = if s.len() > 0 && s[0] == 43 {
        s.skip(1)
    } else {
        s
    };
    if d.len() == 0 || !all_hex(d) || hex_number(d) > u32::MAX {
        None
    } else {
        Some(hex_number(d) as u32)
    }
}

/// `s` without its leading `#` characters.
pub open spec fn trim_hashes_start(s: Seq<char>) -> Seq<char>
    decreases s.len(),
{
    if s.len() > 0 && s[0] == '#' {
        trim_hashes_start(s.drop_first())
    } else {
        s
    }
}

/// Each character of `s` written twice.
pub open spec fn doubled(s: Seq<char>) -> Seq<char>
    decreases s.len(),
{
    if s.len() == 0 {
        seq![]
    } else {
        doubled(s.drop_last()) + seq![s.last(), s.last()]
    }
}

/// The number a theme color stands for, as the window theme reads it: the
/// value trimmed, its leading `#`s dropped, three bytes widened to six by
/// doubling each digit, then read as a hexadecimal `u32`.
pub open spec fn rgb_hex_spec(value: Seq<char>) -> Option<u32> {
    let h = trim_hashes_start(trim(value));
    let e = if encode_utf8(h).len() == 3 {
        doubled(h)
    } else {
        h
    };
    u32_from_hex(encode_utf8(e))
}

proof fn lemma_hex_number_grows(d: Seq<u8>, k: int)
    requires
        0 <= k <= d.len(),
    ensures
        hex_number(d.take(k)) <= hex_number(d),
    decreases d.len(),
{
    if k < d.len() {
        lemma_hex_number_grows(d.drop_last(), k);
        assert(d.drop_last().take(k) =~= d.take(k));
    } else {
        assert(d.take(k) =~= d);
    }
}

fn u32_from_hex_exec(b: &[u8]) -> (r: Option<u32>)
    ensures
        r == u32_from_hex(b@),
{
    if b.len() == 0 {
        return None;
    }
    let start: usize = if b[0] == 43 {
        1
    } else {
        0
    };
    let ghost d = if b@.len() > 0 && b@[0] == 43 {
        b@.skip(1)
    } else {
        b@
    };
    assert(d =~= b@.subrange(start as int, b@.len() as int));
    if start == b.len() {
        return None;
    }
    let mut acc: u32 = 0;
    let mut i: usize = start;
    assert(b@.subrange(start as int, start as int) =~= Seq::<u8>::empty());
    while i < b.len()
        invariant
            start <= i <= b.len(),
            d == b@.subrange(start as int, b@.len() as int),
            d == (if b@.len() > 0 && b@[0] == 43 {
                b@.skip(1)
            } else {
                b@
            }),
            acc == hex_number(b@.subrange(start as int, i as int)),
            all_hex(b@.subrange(start as int, i as int)),
        decreases b.len() - i,
    {
        let ghost pre = b@.subrange(start as int, i as int);
        let ghost next = b@.subrange(start as int, i + 1);
        assert(next.drop_last() =~= pre);
        assert(d.take(i + 1 - start) =~= next);
        match hex_digit_exec(b[i]) {
            None => {
                assert(d[i - start] == b@[i as int]);
                assert(hex_digit(d[i - start]) is None);
                return None;
            },
            Some(x) => {
                let wide: u64 = acc as u64 * 16 + x as u64;
                if wide > 0xffff_ffff {
                    proof {
                        assert(next.last() == b@[i as int]);
                        assert(hex_number(next) == 16 * hex_number(pre) + x);
                        if all_hex(d) {
                            lemma_hex_number_grows(d, i + 1 - start);
                        }
                    }
                    return None;
                }
                proof {
                    assert(next.last() == b@[i as int]);
                    assert(hex_number(next) == 16 * hex_number(pre) + x);
                    assert forall|j: int| 0 <= j < next.len() implies hex_digit(#[trigger] next[j]) is Some by {
                        if j < pre.len() {
                            assert(next[j] == pre[j]);
                        }
                    }
                }
                acc = wide as u32;
                i = i + 1;
            },
        }
    }
    assert(b@.subrange(start as int, b@.len() as int) =~= d);
    Some(acc)
}

/// The number a theme color stands for: see [`rgb_hex_spec`].
#[verifier::spinoff_prover]
#[verifier::rlimit(40)]
pub fn rgb_hex_value(value: &str) -> (r: Option<u32>)
    ensures
        r == rgb_hex_spec(value@),
{
    let v = chars_of(value);
    assert(v@.subrange(0, v.len() as int) =~= v@);
    let (a, b) = trim_bounds(&v, 0, v.len());
    let mut a2 = a;
    while a2 < b && v[a2] == '#'
        invariant
            a <= a2 <= b <= v.len(),
            trim_hashes_start(v@.subrange(a as int, b as int)) == trim_hashes_start(
                v@.subrange(a2 as int, b as int),
            ),
        decreases b - a2,
    {
        assert(v@.subrange(a2 as int, b as int).drop_first() =~= v@.subrange(a2 + 1, b as int));
        a2 = a2 + 1;
    }
    let h = string_of(&v, a2, b);
    let e = if h.as_str().as_bytes().len() == 3 {
        let mut out = String::new();
        let mut k = a2;
        assert(v@.subrange(a2 as int, a2 as int) =~= Seq::<char>::empty());
        while k < b
            invariant
                a2 <= k <= b <= v.len(),
                out@ == doubled(v@.subrange(a2 as int, k as int)),
            decreases b - k,
        {
            assert(v@.subrange(a2 as int, k + 1).drop_last() =~= v@.subrange(a2 as int, k as int));
            push_char(&mut out, v[k]);
            push_char(&mut out, v[k]);
            assert(out@ =~= doubled(v@.subrange(a2 as int, k + 1)));
            k = k + 1;
        }
        out
    } else {
        h
    };
    u32_from_hex_exec(e.as_str().as_bytes())
}

// ---------------------------------------------------------------------------
// Palettes
// ---------------------------------------------------------------------------

/// The theme colors the editor uses, as hex strings.
#[derive(Debug, Clone, PartialEq)]
pub struct OmarchyPalette {
    pub dark: bool,
    pub background: String,
    pub foreground: String,
    pub accent: String,
    pub selection: String,
    pub muted: String,
    /// Elevated surface used for ghost-button hover: Omarchy's
    /// `lighter_background` (dark) or `darker_background` (light).
    pub hover: String,
    /// Ink color drawn on top of the selection highlight, when the theme
    /// names one.
    pub selection_foreground: Option<String>,
}

/// What an [`OmarchyPalette`] holds.
pub struct PaletteModel {
    pub dark: bool,
    pub background: Seq<char>,
    pub foreground: Seq<char>,
    pub accent: Seq<char>,
    pub selection: Seq<char>,
    pub muted: Seq<char>,
    pub hover: Seq<char>,
    pub selection_foreground: Option<Seq<char>>,
}

impl View for OmarchyPalette {
    type V = PaletteModel;

    open spec fn view(&self) -> PaletteModel {
        PaletteModel {
            dark: self.dark,
            background: self.background@,
            foreground: self.foreground@,
            accent: self.accent@,
            selection: self.selection@,
            muted: self.muted@,
            hover: self.hover@,
            selection_foreground: opt_view(self.selection_foreground),
        }
    }
}

/// The built-in dark and light palettes.
pub open spec fn fallback_spec(dark: bool) -> PaletteModel {
    if dark {
        PaletteModel {
            dark: true,
            background: "#101010"@,
            foreground: "#eeeeee"@,
            accent: "#5584aa"@,
            selection: "#186a9a"@,
            muted: "#909191"@,
            hover: "#2a2a2a"@,
            selection_foreground: None,
        }
    } else {
        PaletteModel {
            dark: false,
            background: "#ffffff"@,
            foreground: "#222324"@,
            accent: "#2077b2"@,
            selection: "#2077b2"@,
            muted: "#aeb1b5"@,
            hover: "#e8e8e8"@,
            selection_foreground: None,
        }
    }
}

/// What a theme file sets, line by line, before the mode is settled.
pub struct ThemeModel {
    pub mode: Seq<char>,
    pub palette: PaletteModel,
    pub lighter: Option<Seq<char>>,
    pub darker: Option<Seq<char>>,
    pub muted_from_file: bool,
}

/// A theme file read line by line; [`ThemeFile::resolve`] settles the mode.
#[derive(Debug, Clone)]
pub struct ThemeFile {
    pub mode: String,
    pub palette: OmarchyPalette,
    pub lighter: Option<String>,
    pub darker: Option<String>,
    pub muted_from_file: bool,
}

impl View for ThemeFile {
    type V = ThemeModel;

    open spec fn view(&self) -> ThemeModel {
        ThemeModel {
            mode: self.mode@,
            palette: self.palette@,
            lighter: opt_view(self.lighter),
            darker: opt_view(self.darker),
            muted_from_file: self.muted_from_file,
        }
    }
}

/// A value without one pair of surrounding `"` or `'` quotes.
pub open spec fn unquote_spec(value: Seq<char>) -> Seq<char> {
    let v = trim(value);
    if v.len() >= 2 && ((v[0] == '"' && v.last() == '"') || (v[0] == '\'' && v.last() == '\'')) {
        v.subrange(1, v.len() - 1)
    } else {
        v
    }
}

/// The effect of one line `key = value` of a theme file; blank lines, `#`
/// comments, lines without `=` and unknown keys change nothing.  A
/// `selection_foreground` that is not a hex color is dropped.
pub open spec fn apply_line(st: ThemeModel, line: Seq<char>) -> ThemeModel {
    let t = trim(line);
    if t.len() == 0 || t[0] == '#' {
        st
    } else {
        let eq = first_of(t, seq!['='], 0);
        if eq >= t.len() {
            st
        } else {
            let key = trim(t.take(eq));
            let value = unquote_spec(trim(t.skip(eq + 1)));
            let p = st.palette;
            if key == "mode"@ {
                ThemeModel { mode: value, ..st }
            } else if key == "background"@ {
                ThemeModel { palette: PaletteModel { background: value, ..p }, ..st }
            } else if key == "foreground"@ {
                ThemeModel { palette: PaletteModel { foreground: value, ..p }, ..st }
            } else if key == "accent"@ {
                ThemeModel { palette: PaletteModel { accent: value, ..p }, ..st }
            } else if key == "selection"@ {
                ThemeModel { palette: PaletteModel { selection: value, ..p }, ..st }
            } else if key == "selection_foreground"@ {
                ThemeModel {
                    palette: PaletteModel {
                        selection_foreground: if parse_hex_spec(value) is Some {
                            Some(value)
                        } else {
                            None
                        },
                        ..p
                    },
                    ..st
                }
            } else if key == "muted"@ {
                ThemeModel {
                    palette: PaletteModel { muted: value, ..p },
                    muted_from_file: true,
                    ..st
                }
            } else if key == "lighter_background"@ {
                ThemeModel { lighter: Some(value), ..st }
            } else if key == "darker_background"@ {
                ThemeModel { darker: Some(value), ..st }
            } else {
                st
            }
        }
    }
}

/// Whether a line checks a `selection_foreground` that cannot be read.
pub open spec fn line_panics(line: Seq<char>) -> bool {
    let t = trim(line);
    if t.len() == 0 || t[0] == '#' {
        false
    } else {
        let eq = first_of(t, seq!['='], 0);
        eq < t.len() && trim(t.take(eq)) == "selection_foreground"@ && hex_color_panics(
            unquote_spec(trim(t.skip(eq + 1))),
        )
    }
}

/// The lines from position `k` on, applied in order.
pub open spec fn fold_lines(s: Seq<char>, k: int, st: ThemeModel) -> ThemeModel
    decreases s.len() - k,
{
    if k < 0 || k > s.len() {
        st
    } else {
        let e = first_of(s, seq!['\n'], k);
        let st2 = apply_line(st, s.subrange(k, e));
        if e >= s.len() || e < k {
            st2
        } else {
            fold_lines(s, e + 1, st2)
        }
    }
}

/// Whether some line from position `k` on cannot be read.
pub open spec fn lines_panic(s: Seq<char>, k: int) -> bool
    decreases s.len() - k,
{
    if k < 0 || k > s.len() {
        false
    } else {
        let e = first_of(s, seq!['\n'], k);
        line_panics(s.subrange(k, e)) || (e < s.len() && e >= k && lines_panic(s, e + 1))
    }
}

/// A theme file read with the fallback palette for `dark_hint` to start from.
pub open spec fn theme_file_spec(raw: Seq<char>, dark_hint: bool) -> ThemeModel {
    fold_lines(
        raw,
        0,
        ThemeModel {
            mode: seq![],
            palette: fallback_spec(dark_hint),
            lighter: None,
            darker: None,
            muted_from_file: false,
        },
    )
}

/// The palette once the mode is settled: `mode = dark` or `light` decides;
/// otherwise `background_is_dark` (whether the background color reads as
/// dark, when it is a color) decides; otherwise the hint stays.  Muted and
/// hover colors the file does not give come from the built-in palette of
/// that mode.
pub open spec fn resolve_spec(t: ThemeModel, background_is_dark: Option<bool>) -> PaletteModel {
    let dark = if t.mode == "dark"@ {
        true
    } else if t.mode == "light"@ {
        false
    } else {
        match background_is_dark {
            Some(d) => d,
            None => t.palette.dark,
        }
    };
    let resolved = fallback_spec(dark);
    PaletteModel {
        dark,
        muted: if t.muted_from_file {
            t.palette.muted
        } else {
            resolved.muted
        },
        hover: if dark {
            match t.lighter {
                Some(l) => l,
                None => resolved.hover,
            }
        } else {
            match t.darker {
                Some(d) => d,
                None => resolved.hover,
            }
        },
        ..t.palette
    }
}

impl OmarchyPalette {
    /// The built-in palette for dark or light mode.
    pub fn fallback(dark: bool) -> (r: Self)
        ensures
            r@ == fallback_spec(dark),
    {
        if dark {
            OmarchyPalette {
                dark: true,
                background: string_from("#101010"),
                foreground: string_from("#eeeeee"),
                accent: string_from("#5584aa"),
                selection: string_from("#186a9a"),
                muted: string_from("#909191"),
                hover: string_from("#2a2a2a"),
                selection_foreground: None,
            }
        } else {
            OmarchyPalette {
                dark: false,
                background: string_from("#ffffff"),
                foreground: string_from("#222324"),
                accent: string_from("#2077b2"),
                selection: string_from("#2077b2"),
                muted: string_from("#aeb1b5"),
                hover: string_from("#e8e8e8"),
                selection_foreground: None,
            }
        }
    }
}

/// The bounds of `v[lo..hi]` without one pair of surrounding quotes, after
/// trimming.
fn unquote_bounds(v: &Vec<char>, lo: usize, hi: usize) -> (r: (usize, usize))
    requires
        lo <= hi <= v.len(),
    ensures
        lo <= r.0 <= r.1 <= hi,
        v@.subrange(r.0 as int, r.1 as int) == unquote_spec(v@.subrange(lo as int, hi as int)),
{
    let (a, b) = trim_bounds(v, lo, hi);
    if b - a >= 2 && ((v[a] == '"' && v[b - 1] == '"') || (v[a] == '\'' && v[b - 1] == '\'')) {
        assert(v@.subrange(a + 1, b - 1) =~= v@.subrange(a as int, b as int).subrange(
            1,
            (b - a) - 1,
        ));
        (a + 1, b - 1)
    } else {
        (a, b)
    }
}

/// Whether `t[lo..hi]`, a trimmed line, names a key and a value, with their
/// bounds.
fn split_line(v: &Vec<char>, lo: usize, hi: usize) -> (r: Option<(usize, usize, usize, usize)>)
    requires
        lo <= hi <= v.len(),
    ensures
        ({
            let t = trim(v@.subrange(lo as int, hi as int));
            if t.len() == 0 || t[0] == '#' || first_of(t, seq!['='], 0) >= t.len() {
                r is None
            } else {
                let eq = first_of(t, seq!['='], 0);
                r matches Some((ka, kb, va, vb)) && ka <= kb <= v.len() && va <= vb <= v.len()
                    && v@.subrange(ka as int, kb as int) == trim(t.take(eq)) && v@.subrange(
                    va as int,
                    vb as int,
                ) == unquote_spec(trim(t.skip(eq + 1)))
            }
        }),
{
    let (a, b) = trim_bounds(v, lo, hi);
    let ghost t = v@.subrange(a as int, b as int);
    if a == b || v[a] == '#' {
        return None;
    }
    let eqs: Vec<char> = vec!['='];
    assert(eqs@ =~= seq!['=']);
    let eq = first_of_exec(v, a, b, &eqs);
    if eq >= b {
        return None;
    }
    let (ka, kb) = trim_bounds(v, a, eq);
    assert(v@.subrange(a as int, eq as int) =~= t.take(eq - a));
    let (ta, tb) = trim_bounds(v, eq + 1, b);
    assert(v@.subrange(eq + 1, b as int) =~= t.skip(eq - a + 1));
    let (va, vb) = unquote_bounds(v, ta, tb);
    Some((ka, kb, va, vb))
}

fn apply_line_exec(st: &mut ThemeFile, v: &Vec<char>, lo: usize, hi: usize)
    requires
        lo <= hi <= v.len(),
        !line_panics(v@.subrange(lo as int, hi as int)),
    ensures
        final(st)@ == apply_line(old(st)@, v@.subrange(lo as int, hi as int)),
{
    let (ka, kb, va, vb) = match split_line(v, lo, hi) {
        Some(parts) => parts,
        None => {
            return;
        },
    };
    let value = string_of(v, va, vb);
    if chars_equal_str(v, ka, kb, "mode") {
        st.mode = value;
    } else if chars_equal_str(v, ka, kb, "background") {
        st.palette.background = value;
    } else if chars_equal_str(v, ka, kb, "foreground") {
        st.palette.foreground = value;
    } else if chars_equal_str(v, ka, kb, "accent") {
        st.palette.accent = value;
    } else if chars_equal_str(v, ka, kb, "selection") {
        st.palette.selection = value;
    } else if chars_equal_str(v, ka, kb, "selection_foreground") {
        if parse_hex_rgba(value.as_str()).is_some() {
            st.palette.selection_foreground = Some(value);
        } else {
            st.palette.selection_foreground = None;
        }
    } else if chars_equal_str(v, ka, kb, "muted") {
        st.palette.muted = value;
        st.muted_from_file = true;
    } else if chars_equal_str(v, ka, kb, "lighter_background") {
        st.lighter = Some(value);
    } else if chars_equal_str(v, ka, kb, "darker_background") {
        st.darker = Some(value);
    }
}

/// Reads the lines of an Omarchy `colors.toml` over the fallback palette
/// for `dark_hint`.
pub fn parse_theme_file(raw: &str, dark_hint: bool) -> (r: ThemeFile)
    requires
        !lines_panic(raw@, 0),
    ensures
        r@ == theme_file_spec(raw@, dark_hint),
{
    let v = chars_of(raw);
    let mut st = ThemeFile {
        mode: String::new(),
        palette: OmarchyPalette::fallback(dark_hint),
        lighter: None,
        darker: None,
        muted_from_file: false,
    };
    let ghost whole = theme_file_spec(raw@, dark_hint);
    let nl: Vec<char> = vec!['\n'];
    assert(nl@ =~= seq!['\n']);
    let mut k: usize = 0;
    loop
        invariant
            k <= v.len(),
            v@ == raw@,
            nl@ == seq!['\n'],
            whole == theme_file_spec(raw@, dark_hint),
            whole == fold_lines(v@, k as int, st@),
            !lines_panic(v@, k as int),
        decreases v.len() - k,
    {
        let e = first_of_exec(&v, k, v.len(), &nl);
        assert(v@.subrange(k as int, v.len() as int) =~= v@.skip(k as int));
        proof {
            lemma_first_of_shift(v@, seq!['\n'], k as int);
        }
        apply_line_exec(&mut st, &v, k, e);
        if e >= v.len() {
            return st;
        }
        k = e + 1;
    }
}

/// Searching from `k` is searching the suffix from 0, shifted.
proof fn lemma_first_of_shift(s: Seq<char>, xs: Seq<char>, k: int)
    requires
        0 <= k <= s.len(),
    ensures
        first_of(s, xs, k) == k + first_of(s.subrange(k, s.len() as int), xs, 0),
    decreases s.len() - k,
{
    let t = s.subrange(k, s.len() as int);
    if k >= s.len() || xs.contains(s[k]) {
    } else {
        lemma_first_of_shift(s, xs, k + 1);
        lemma_first_of_suffix(t, xs, 0);
        assert(t.subrange(1, t.len() as int) =~= s.subrange(k + 1, s.len() as int));
    }
}

/// Searching a sequence from 1 is searching its tail from 0, shifted.
proof fn lemma_first_of_suffix(t: Seq<char>, xs: Seq<char>, j: int)
    requires
        0 <= j <= t.len(),
    ensures
        j < t.len() && !xs.contains(t[j]) ==> first_of(t, xs, j) == first_of(t, xs, j + 1),
        j + 1 <= t.len() ==> first_of(t, xs, j + 1) == 1 + first_of(
            t.subrange(1, t.len() as int),
            xs,
            j,
        ),
    decreases t.len() - j,
{
    if j + 1 <= t.len() {
        let u = t.subrange(1, t.len() as int);
        if j + 1 >= t.len() || xs.contains(t[j + 1]) {
        } else {
            lemma_first_of_suffix(t, xs, j + 1);
        }
    }
}

/// Whether [`parse_theme_file`] can read every line of `raw`.
pub fn theme_file_readable(raw: &str) -> (r: bool)
    ensures
        r == !lines_panic(raw@, 0),
{
    let v = chars_of(raw);
    let nl: Vec<char> = vec!['\n'];
    assert(nl@ =~= seq!['\n']);
    let mut k: usize = 0;
    loop
        invariant
            k <= v.len(),
            v@ == raw@,
            nl@ == seq!['\n'],
            lines_panic(v@, 0) == lines_panic(v@, k as int),
        decreases v.len() - k,
    {
        let e = first_of_exec(&v, k, v.len(), &nl);
        proof {
            lemma_first_of_shift(v@, seq!['\n'], k as int);
        }
        if line_panics_exec(&v, k, e) {
            return false;
        }
        if e >= v.len() {
            return true;
        }
        k = e + 1;
    }
}

fn line_panics_exec(v: &Vec<char>, lo: usize, hi: usize) -> (r: bool)
    requires
        lo <= hi <= v.len(),
    ensures
        r == line_panics(v@.subrange(lo as int, hi as int)),
{
    match split_line(v, lo, hi) {
        None => false,
        Some((ka, kb, va, vb)) => {
            if chars_equal_str(v, ka, kb, "selection_foreground") {
                let value = string_of(v, va, vb);
                !hex_color_readable(value.as_str())
            } else {
                false
            }
        },
    }
}

impl ThemeFile {
    /// The palette once the mode is settled; `background_is_dark` says
    /// whether the file's background color reads as dark, when it is a
    /// color, and counts only when the file names no mode.
    pub fn resolve(self, background_is_dark: Option<bool>) -> (r: OmarchyPalette)
        ensures
            r@ == resolve_spec(self@, background_is_dark),
    {
        let ThemeFile { mode, palette, lighter, darker, muted_from_file } = self;
        let mut palette = palette;
        let mv = chars_of(mode.as_str());
        if chars_equal_str(&mv, 0, mv.len(), "dark") {
            palette.dark = true;
        } else if chars_equal_str(&mv, 0, mv.len(), "light") {
            palette.dark = false;
        } else {
            match background_is_dark {
                Some(d) => {
                    palette.dark = d;
                },
                None => {},
            }
        }
        assert(mv@.subrange(0, mv.len() as int) =~= mv@);
        let resolved = OmarchyPalette::fallback(palette.dark);
        if !muted_from_file {
            palette.muted = resolved.muted;
        }
        palette.hover = if palette.dark {
            match lighter {
                Some(l) => l,
                None => resolved.hover,
            }
        } else {
            match darker {
                Some(d) => d,
                None => resolved.hover,
            }
        };
        palette
    }
}

/// The theme's `colors.toml` under the home directory.
pub open spec fn colors_path_spec(home: Seq<char>) -> Seq<char> {
    path_join(home, ".local/state/omarchy/current/theme/colors.toml"@)
}

/// Where Omarchy keeps the current theme's colors.
pub fn omarchy_colors_path(home: &str) -> (r: String)
    ensures
        r@ == colors_path_spec(home@),
{
    join_path(home, ".local/state/omarchy/current/theme/colors.toml")
}

/// The current-theme directory under the home directory.
pub open spec fn current_theme_dir(home: Seq<char>) -> Seq<char> {
    path_join(home, ".local/state/omarchy/current"@)
}

/// The watched paths fit together: the colors file is `theme/colors.toml`
/// inside the current-theme directory, and that directory's path ends with
/// `.local/state/omarchy/current`.
pub proof fn law_watch_paths(home: Seq<char>)
    ensures
        path_join(current_theme_dir(home), "theme/colors.toml"@) == colors_path_spec(home),
        current_theme_dir(home).len() >= ".local/state/omarchy/current"@.len(),
        current_theme_dir(home).skip(
            current_theme_dir(home).len() - ".local/state/omarchy/current"@.len(),
        ) == ".local/state/omarchy/current"@,
{
    reveal_strlit(".local/state/omarchy/current");
    reveal_strlit("theme/colors.toml");
    reveal_strlit(".local/state/omarchy/current/theme/colors.toml");
    reveal_strlit("/");
    let a = ".local/state/omarchy/current"@;
    let cur = current_theme_dir(home);
    let t = "theme/colors.toml"@;
    assert(cur.len() > 0 && cur.last() == 't');
    assert(a + "/"@ + t =~= ".local/state/omarchy/current/theme/colors.toml"@);
    if home.len() == 0 || home.last() == '/' {
        assert(cur + "/"@ + t =~= home + (a + "/"@ + t));
    } else {
        assert(cur + "/"@ + t =~= home + "/"@ + (a + "/"@ + t));
    }
    assert(cur.skip(cur.len() - a.len()) =~= a);
}

/// The paths to watch for theme switches: the current-theme directory, its
/// `theme` directory and the colors file.
pub fn omarchy_watch_paths(home: &str) -> (r: Vec<String>)
    ensures
        r@.len() == 3,
        r@[0]@ == current_theme_dir(home@),
        r@[1]@ == path_join(current_theme_dir(home@), "theme"@),
        r@[2]@ == path_join(current_theme_dir(home@), "theme/colors.toml"@),
        r@[2]@ == colors_path_spec(home@),
{
    let current = join_path(home, ".local/state/omarchy/current");
    let theme = join_path(current.as_str(), "theme");
    let colors = join_path(current.as_str(), "theme/colors.toml");
    proof {
        law_watch_paths(home@);
    }
    vec![current, theme, colors]
}

// ---------------------------------------------------------------------------
// Desktop color scheme
// ---------------------------------------------------------------------------

/// Whether `t` occurs in `s`.
pub open spec fn has_infix(s: Seq<char>, t: Seq<char>) -> bool {
    exists|i: int| 0 <= i && i + t.len() <= s.len() && #[trigger] s.subrange(i, i + t.len()) == t
}

fn contains_text(v: &Vec<char>, t: &str) -> (r: bool)
    ensures
        r == has_infix(v@, t@),
{
    let m = t.unicode_len();
    if m > v.len() {
        return false;
    }
    let last = v.len() - m;
    let mut i: usize = 0;
    loop
        invariant
            m == t@.len(),
            last + m == v.len(),
            i <= last,
            forall|j: int| 0 <= j < i ==> #[trigger] v@.subrange(j, j + m) != t@,
        decreases last - i,
    {
        if chars_equal_str(v, i, i + m, t) {
            return true;
        }
        if i == last {
            return false;
        }
        i = i + 1;
    }
}

/// Whether the desktop asks for dark colors, from what `gsettings get
/// org.gnome.desktop.interface color-scheme` printed (`None` when it could
/// not be asked): dark unless it prefers light.
pub open spec fn prefers_dark_spec(output: Option<Seq<char>>) -> bool {
    match output {
        None => true,
        Some(raw) => has_infix(raw, "prefer-dark"@) || !has_infix(raw, "prefer-light"@),
    }
}

pub fn system_prefers_dark(output: Option<&str>) -> (r: bool)
    ensures
        r == prefers_dark_spec(
            match output {
                Some(o) => Some(o@),
                None => None,
            },
        ),
{
    match output {
        None => true,
        Some(raw) => {
            let v = chars_of(raw);
            if contains_text(&v, "prefer-dark") {
                return true;
            }
            if contains_text(&v, "prefer-light") {
                return false;
            }
            true
        },
    }
}


// ---------------------------------------------------------------------------
// Laws of theme files
// ---------------------------------------------------------------------------

proof fn lemma_first_of_append(s: Seq<char>, x: char, xs: Seq<char>, k: int)
    requires
        0 <= k <= s.len(),
        xs.contains(x),
    ensures
        first_of(s + seq![x], xs, k) == if first_of(s, xs, k) < s.len() {
            first_of(s, xs, k)
        } else {
            s.len() as int
        },
        k <= first_of(s, xs, k) <= s.len(),
    decreases s.len() - k,
{
    let t = s + seq![x];
    if k == s.len() {
        assert(t[k] == x);
    } else {
        assert(t[k] == s[k]);
        if !xs.contains(s[k]) {
            lemma_first_of_append(s, x, xs, k + 1);
        }
    }
}

proof fn lemma_fold_lines_newline(s: Seq<char>, k: int, st: ThemeModel)
    requires
        0 <= k <= s.len(),
    ensures
        fold_lines(s + seq!['\n'], k, st) == fold_lines(s, k, st),
    decreases s.len() - k,
{
    let t = s + seq!['\n'];
    let nl = seq!['\n'];
    assert(nl.contains('\n')) by {
        assert(nl[0] == '\n');
    }
    lemma_first_of_append(s, '\n', nl, k);
    let e = first_of(s, nl, k);
    assert(t.subrange(k, e) =~= s.subrange(k, e));
    let st2 = apply_line(st, s.subrange(k, e));
    if e < s.len() {
        lemma_fold_lines_newline(s, e + 1, st2);
    } else {
        let n = t.len() as int;
        assert(first_of(t, nl, n) == n);
        assert(t.subrange(n, n) =~= Seq::<char>::empty());
        assert(trim(Seq::<char>::empty()) =~= Seq::<char>::empty());
        assert(apply_line(st2, t.subrange(n, n)) == st2);
    }
}

/// A trailing newline changes nothing in what a theme file sets: the last
/// line counts whether or not a newline ends it.
pub proof fn law_theme_trailing_newline(raw: Seq<char>, dark_hint: bool)
    ensures
        theme_file_spec(raw + seq!['\n'], dark_hint) == theme_file_spec(raw, dark_hint),
{
    lemma_fold_lines_newline(
        raw,
        0,
        ThemeModel {
            mode: seq![],
            palette: fallback_spec(dark_hint),
            lighter: None,
            darker: None,
            muted_from_file: false,
        },
    );
}

/// A one-line theme file sets what that line says: its `key = value` is
/// applied to the built-in palette for the hint.
pub proof fn law_theme_single_line(line: Seq<char>, dark_hint: bool)
    requires
        !line.contains('\n'),
    ensures
        theme_file_spec(line, dark_hint) == apply_line(
            ThemeModel {
                mode: seq![],
                palette: fallback_spec(dark_hint),
                lighter: None,
                darker: None,
                muted_from_file: false,
            },
            line,
        ),
{
    let nl = seq!['\n'];
    lemma_first_of_none(line, nl, 0);
    assert(line.subrange(0, line.len() as int) =~= line);
}

proof fn lemma_first_of_none(s: Seq<char>, xs: Seq<char>, k: int)
    requires
        0 <= k <= s.len(),
        forall|q: int| k <= q < s.len() ==> !xs.contains(#[trigger] s[q]),
    ensures
        first_of(s, xs, k) == s.len(),
    decreases s.len() - k,
{
    if k < s.len() {
        lemma_first_of_none(s, xs, k + 1);
    }
}

} // verus!

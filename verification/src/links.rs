//! Markdown links: normalizing a pasted URL, escaping link text and
//! destinations, and the markdown that Ctrl+K inserts.

use vstd::prelude::*;
use vstd::string::StringSliceAdditionalSpecFns;
use vstd::utf8::*;

use crate::text::{
    ascii_lower, byte_len, chars_equal_str, chars_of, is_ascii_letter, lemma_encode_concat,
    push_char, push_chars, push_str, string_of, to_ascii_lower, trim, trim_bounds,
};

verus! {

broadcast use vstd::string::group_string_axioms;

// ---------------------------------------------------------------------------
// Escaping
// ---------------------------------------------------------------------------

/// `s` with a backslash before every backslash, `[` and `]`.
pub open spec fn escape_text(s: Seq<char>) -> Seq<char>
    decreases s.len(),
{
    if s.len() == 0 {
        seq![]
    } else {
        (if s[0] == '\\' || s[0] == '[' || s[0] == ']' {
            seq!['\\', s[0]]
        } else {
            seq![s[0]]
        }) + escape_text(s.skip(1))
    }
}

/// `s` with a backslash before every backslash, `(` and `)`.
pub open spec fn escape_destination(s: Seq<char>) -> Seq<char>
    decreases s.len(),
{
    if s.len() == 0 {
        seq![]
    } else {
        (if s[0] == '\\' || s[0] == '(' || s[0] == ')' {
            seq!['\\', s[0]]
        } else {
            seq![s[0]]
        }) + escape_destination(s.skip(1))
    }
}

/// Escapes `\`, `[` and `]` for use as link text.
pub fn escape_link_text(link_text: &str) -> (r: String)
    ensures
        r@ == escape_text(link_text@),
{
    let v = chars_of(link_text);
    let mut out = String::new();
    let mut i: usize = 0;
    assert(v@.skip(0) =~= v@);
    assert(out@ + escape_text(v@) =~= escape_text(v@));
    while i < v.len()
        invariant
            i <= v.len(),
            out@ + escape_text(v@.skip(i as int)) == escape_text(v@),
        decreases v.len() - i,
    {
        let c = v[i];
        let ghost before = out@;
        if c == '\\' || c == '[' || c == ']' {
            push_char(&mut out, '\\');
        }
        push_char(&mut out, c);
        assert(v@.skip(i as int).skip(1) =~= v@.skip(i + 1));
        assert(out@ + escape_text(v@.skip(i + 1)) =~= before + escape_text(v@.skip(i as int)));
        i = i + 1;
    }
    assert(escape_text(v@.skip(i as int)) =~= Seq::<char>::empty());
    assert(out@ =~= escape_text(v@));
    out
}

/// Escapes `\`, `(` and `)` for use as a link destination.
pub fn escape_link_destination(link_url: &str) -> (r: String)
    ensures
        r@ == escape_destination(link_url@),
{
    let v = chars_of(link_url);
    let mut out = String::new();
    let mut i: usize = 0;
    assert(v@.skip(0) =~= v@);
    assert(out@ + escape_destination(v@) =~= escape_destination(v@));
    while i < v.len()
        invariant
            i <= v.len(),
            out@ + escape_destination(v@.skip(i as int)) == escape_destination(v@),
        decreases v.len() - i,
    {
        let c = v[i];
        let ghost before = out@;
        if c == '\\' || c == '(' || c == ')' {
            push_char(&mut out, '\\');
        }
        push_char(&mut out, c);
        assert(v@.skip(i as int).skip(1) =~= v@.skip(i + 1));
        assert(out@ + escape_destination(v@.skip(i + 1)) =~= before + escape_destination(
            v@.skip(i as int),
        ));
        i = i + 1;
    }
    assert(escape_destination(v@.skip(i as int)) =~= Seq::<char>::empty());
    assert(out@ =~= escape_destination(v@));
    out
}

// ---------------------------------------------------------------------------
// Ctrl+K
// ---------------------------------------------------------------------------

/// The markdown `[label](destination)`, both parts escaped.
pub open spec fn link_markdown(label: Seq<char>, destination: Seq<char>) -> Seq<char> {
    "["@ + escape_text(label) + "]("@ + escape_destination(destination) + ")"@
}

/// What Ctrl+K inserts for the selection and the URL found on the
/// clipboard, with the byte range to select afterwards: the placeholder
/// label when nothing was selected, else the destination when the clipboard
/// held no URL, else the whole link.
pub open spec fn insert_link_spec(selected: Seq<char>, clipboard_url: Option<Seq<char>>) -> (
    Seq<char>,
    int,
    int,
) {
    let label = if selected.len() == 0 {
        "link text"@
    } else {
        selected
    };
    let destination = match clipboard_url {
        Some(u) => u,
        None => "https://"@,
    };
    let md = link_markdown(label, destination);
    let el = byte_len(escape_text(label)) as int;
    if selected.len() == 0 {
        (md, 1, 1 + el)
    } else if clipboard_url is None {
        (md, el + 3, byte_len(md) - 1)
    } else {
        (md, 0, byte_len(md) as int)
    }
}

/// Byte lengths of the pieces of a link.
proof fn lemma_link_bytes(label: Seq<char>, destination: Seq<char>)
    ensures
        encode_utf8(link_markdown(label, destination)) == encode_utf8("["@) + encode_utf8(
            escape_text(label),
        ) + encode_utf8("]("@) + encode_utf8(escape_destination(destination)) + encode_utf8(
            ")"@,
        ),
        byte_len(link_markdown(label, destination)) == 1 + byte_len(escape_text(label)) + 2
            + byte_len(escape_destination(destination)) + 1,
{
    let a = "["@;
    let b = escape_text(label);
    let c = "]("@;
    let d = escape_destination(destination);
    let e = ")"@;
    lemma_encode_concat(a, b);
    lemma_encode_concat(a + b, c);
    lemma_encode_concat(a + b + c, d);
    lemma_encode_concat(a + b + c + d, e);
    reveal_strlit("[");
    reveal_strlit("](");
    reveal_strlit(")");
    lemma_encode_literal_bytes();
}

/// The literal pieces of a link are one byte per character.
proof fn lemma_encode_literal_bytes()
    ensures
        encode_utf8("["@).len() == 1,
        encode_utf8("]("@).len() == 2,
        encode_utf8(")"@).len() == 1,
{
    reveal_strlit("[");
    reveal_strlit("](");
    reveal_strlit(")");
    crate::text::lemma_encode_ascii_char('[');
    crate::text::lemma_encode_ascii_char(']');
    crate::text::lemma_encode_ascii_char('(');
    crate::text::lemma_encode_ascii_char(')');
    assert("["@ =~= seq!['[']);
    assert(")"@ =~= seq![')']);
    assert("]("@ =~= seq![']'] + seq!['(']);
    lemma_encode_concat(seq![']'], seq!['(']);
}

/// The markdown for Ctrl+K and the byte range, relative to the start of the
/// insertion, to select afterwards.
pub fn insert_link_markdown(selected: &str, clipboard_url: Option<&str>) -> (r: (
    String,
    usize,
    usize,
))
    ensures
        ({
            let s = insert_link_spec(
                selected@,
                match clipboard_url {
                    Some(u) => Some(u@),
                    None => None,
                },
            );
            r.0@ == s.0 && r.1 == s.1 && r.2 == s.2
        }),
{
    let label = if selected.is_empty() {
        "link text"
    } else {
        selected
    };
    let destination = match clipboard_url {
        Some(u) => u,
        None => "https://",
    };
    let escaped_label = escape_link_text(label);
    let escaped_destination = escape_link_destination(destination);
    let mut markdown = String::new();
    push_str(&mut markdown, "[");
    push_str(&mut markdown, escaped_label.as_str());
    push_str(&mut markdown, "](");
    push_str(&mut markdown, escaped_destination.as_str());
    push_str(&mut markdown, ")");
    let md_len = markdown.as_str().as_bytes().len();
    let label_len = escaped_label.as_str().as_bytes().len();
    proof {
        lemma_link_bytes(label@, destination@);
        assert(markdown@ == link_markdown(label@, destination@));
    }
    if selected.is_empty() {
        (markdown, 1, 1 + label_len)
    } else if clipboard_url.is_none() {
        (markdown, label_len + 3, md_len - 1)
    } else {
        (markdown, 0, md_len)
    }
}

/// The range that Ctrl+K selects lies inside the inserted markdown, and it
/// covers exactly the placeholder label when nothing was selected.
pub proof fn law_link_selection_inside(selected: Seq<char>, clipboard_url: Option<Seq<char>>)
    ensures
        ({
            let (md, a, b) = insert_link_spec(selected, clipboard_url);
            &&& 0 <= a <= b <= byte_len(md)
            &&& selected.len() == 0 ==> encode_utf8(md).subrange(a, b) == encode_utf8(
                escape_text("link text"@),
            )
        }),
{
    let label = if selected.len() == 0 {
        "link text"@
    } else {
        selected
    };
    let destination = match clipboard_url {
        Some(u) => u,
        None => "https://"@,
    };
    lemma_link_bytes(label, destination);
    lemma_encode_literal_bytes();
    let md = link_markdown(label, destination);
    let e = encode_utf8(md);
    let p1 = encode_utf8("["@);
    let p2 = encode_utf8(escape_text(label));
    if selected.len() == 0 {
        assert(e.subrange(1, 1 + p2.len() as int) =~= p2);
    }
}

// ---------------------------------------------------------------------------
// Normalizing a pasted URL
// ---------------------------------------------------------------------------

/// The first position `k' >= k` holding one of `xs`, or the end.
pub open spec fn first_of(s: Seq<char>, xs: Seq<char>, k: int) -> int
    decreases s.len() - k,
{
    if k < 0 || k >= s.len() || xs.contains(s[k]) {
        k
    } else {
        first_of(s, xs, k + 1)
    }
}

/// The last position before `k` holding `x`, or -1.
pub open spec fn last_of(s: Seq<char>, x: char, k: int) -> int
    decreases k,
{
    if k <= 0 || k > s.len() {
        -1
    } else if s[k - 1] == x {
        k - 1
    } else {
        last_of(s, x, k - 1)
    }
}

/// `s` without any number of leading `//`.
pub open spec fn strip_slashes(s: Seq<char>) -> Seq<char>
    decreases s.len(),
{
    if s.len() >= 2 && s[0] == '/' && s[1] == '/' {
        strip_slashes(s.skip(2))
    } else {
        s
    }
}

/// Character allowed after the first in a URL scheme.
pub open spec fn is_scheme_char(c: char) -> bool {
    is_ascii_letter(c) || ('0' <= c <= '9') || c == '+' || c == '.' || c == '-'
}

/// The first position `k' >= k` that is not a scheme character.
pub open spec fn scheme_end(s: Seq<char>, k: int) -> int
    decreases s.len() - k,
{
    if k < 0 || k >= s.len() || !is_scheme_char(s[k]) {
        k
    } else {
        scheme_end(s, k + 1)
    }
}

/// Whether `s` starts with a URL scheme and a colon (`^[A-Za-z][A-Za-z0-9+.-]*:`).
pub open spec fn has_scheme(s: Seq<char>) -> bool {
    s.len() > 0 && is_ascii_letter(s[0]) && scheme_end(s, 1) < s.len() && s[scheme_end(s, 1)]
        == ':'
}

pub open spec fn lower_ascii(s: Seq<char>) -> Seq<char> {
    s.map_values(|c: char| ascii_lower(c))
}

/// Scheme and host of a URL: the text before the first `:`, and after it,
/// past any leading `//`, up to `/`, `?` or `#`, after the last `@`, before
/// the first `:`.  `None` when there is no `:` or the scheme is empty.
pub open spec fn url_parts_spec(s: Seq<char>) -> Option<(Seq<char>, Seq<char>)> {
    let p = first_of(s, seq![':'], 0);
    if p >= s.len() || p == 0 {
        None
    } else {
        let rest = strip_slashes(s.skip(p + 1));
        let h1 = rest.take(first_of(rest, seq!['/', '?', '#'], 0));
        let h2 = h1.skip(last_of(h1, '@', h1.len() as int) + 1);
        Some((s.take(p), h2.take(first_of(h2, seq![':'], 0))))
    }
}

/// The link destination made from clipboard text: its first line, trimmed;
/// `www.` gets `https://` in front; then it must be an http, https or ftp
/// URL with a host, or a mailto URL.
pub open spec fn normalized_link_spec(clip: Seq<char>) -> Option<Seq<char>> {
    let t1 = trim(clip);
    let cut = first_of(t1, seq!['\r', '\n'], 0);
    let t2 = if cut < t1.len() {
        trim(t1.take(cut))
    } else {
        t1
    };
    if t2.len() == 0 {
        None
    } else {
        let t3 = if t2.len() >= 4 && lower_ascii(t2.take(4)) == "www."@ {
            "https://"@ + t2
        } else {
            t2
        };
        if !has_scheme(t3) {
            None
        } else {
            match url_parts_spec(t3) {
                None => None,
                Some((scheme, host)) => {
                    let ls = lower_ascii(scheme);
                    let web = ls == "http"@ || ls == "https"@ || ls == "ftp"@;
                    if web && host.len() == 0 {
                        None
                    } else if !web && ls != "mailto"@ {
                        None
                    } else {
                        Some(t3)
                    }
                },
            }
        }
    }
}

pub(crate) fn first_of_exec(v: &Vec<char>, lo: usize, hi: usize, xs: &Vec<char>) -> (r: usize)
    requires
        lo <= hi <= v.len(),
    ensures
        lo <= r <= hi,
        r == lo + first_of(v@.subrange(lo as int, hi as int), xs@, 0),
{
    let ghost s = v@.subrange(lo as int, hi as int);
    let mut k = lo;
    loop
        invariant
            lo <= k <= hi <= v.len(),
            s == v@.subrange(lo as int, hi as int),
            first_of(s, xs@, 0) == first_of(s, xs@, k - lo),
        decreases hi - k,
    {
        if k == hi {
            return k;
        }
        let c = v[k];
        let mut j: usize = 0;
        let mut found = false;
        while j < xs.len()
            invariant
                j <= xs.len(),
                found == exists|t: int| 0 <= t < j && xs@[t] == c,
            decreases xs.len() - j,
        {
            if xs[j] == c {
                found = true;
            }
            j = j + 1;
        }
        assert(s[k - lo] == c);
        assert(found == xs@.contains(c));
        if found {
            return k;
        }
        k = k + 1;
    }
}

fn last_of_exec(v: &Vec<char>, lo: usize, hi: usize, x: char) -> (r: usize)
    requires
        lo <= hi <= v.len(),
    ensures
        lo <= r <= hi,
        r as int == lo + last_of(v@.subrange(lo as int, hi as int), x, hi - lo) + 1,
{
    let ghost s = v@.subrange(lo as int, hi as int);
    let mut k = hi;
    while k > lo
        invariant
            lo <= k <= hi <= v.len(),
            s == v@.subrange(lo as int, hi as int),
            last_of(s, x, hi - lo) == last_of(s, x, k - lo),
        decreases k,
    {
        if v[k - 1] == x {
            return k;
        }
        k = k - 1;
    }
    k
}

/// Whether `v[lo..hi]` in ASCII lower case spells `t`.
pub(crate) fn lower_equals(v: &Vec<char>, lo: usize, hi: usize, t: &str) -> (r: bool)
    requires
        lo <= hi <= v.len(),
    ensures
        r == (lower_ascii(v@.subrange(lo as int, hi as int)) == t@),
{
    let mut w: Vec<char> = Vec::new();
    let mut i = lo;
    while i < hi
        invariant
            lo <= i <= hi <= v.len(),
            w@ == lower_ascii(v@.subrange(lo as int, i as int)),
        decreases hi - i,
    {
        w.push(to_ascii_lower(v[i]));
        assert(lower_ascii(v@.subrange(lo as int, i + 1)) =~= lower_ascii(
            v@.subrange(lo as int, i as int),
        ).push(ascii_lower(v@[i as int])));
        i = i + 1;
    }
    assert(w@.subrange(0, w.len() as int) =~= w@);
    chars_equal_str(&w, 0, w.len(), t)
}

/// Scheme bounds `(0, p)` and host bounds of the URL in `v`, as
/// [`url_parts_spec`] describes them.
fn url_parts(v: &Vec<char>) -> (r: Option<(usize, usize, usize)>)
    ensures
        match url_parts_spec(v@) {
            Some((scheme, host)) => r matches Some((p, a, b)) && p <= v.len() && a <= b <= v.len()
                && v@.take(p as int) == scheme && v@.subrange(a as int, b as int) == host,
            None => r is None,
        },
{
    let colon: Vec<char> = vec![':'];
    assert(colon@ =~= seq![':']);
    let p = first_of_exec(v, 0, v.len(), &colon);
    assert(v@.subrange(0, v.len() as int) =~= v@);
    if p >= v.len() || p == 0 {
        return None;
    }
    let ghost tail = v@.skip(p + 1);
    let mut s = p + 1;
    while v.len() - s >= 2 && v[s] == '/' && v[s + 1] == '/'
        invariant
            p + 1 <= s <= v.len(),
            strip_slashes(tail) == strip_slashes(v@.skip(s as int)),
            tail == v@.skip(p + 1),
        decreases v.len() - s,
    {
        assert(v@.skip(s as int).skip(2) =~= v@.skip(s + 2));
        s = s + 2;
    }
    assert(strip_slashes(v@.skip(s as int)) == v@.skip(s as int));
    assert(v@.skip(s as int) =~= v@.subrange(s as int, v.len() as int));
    let seps: Vec<char> = vec!['/', '?', '#'];
    assert(seps@ =~= seq!['/', '?', '#']);
    let e1 = first_of_exec(v, s, v.len(), &seps);
    let ghost h1 = v@.subrange(s as int, e1 as int);
    assert(h1 =~= v@.skip(s as int).take(e1 - s));
    let at = last_of_exec(v, s, e1, '@');
    let ghost h2 = v@.subrange(at as int, e1 as int);
    assert(h2 =~= h1.skip(at - s));
    let e2 = first_of_exec(v, at, e1, &colon);
    assert(v@.subrange(at as int, e2 as int) =~= h2.take(e2 - at));
    Some((p, at, e2))
}

/// The link destination for clipboard text, or `None` when it is not a
/// usable http(s), ftp or mailto URL.
pub fn normalized_link_url(clipboard_text: &str) -> (r: Option<String>)
    ensures
        match normalized_link_spec(clipboard_text@) {
            Some(u) => r matches Some(s) && s@ == u,
            None => r is None,
        },
{
    let v = chars_of(clipboard_text);
    let (a, b) = trim_bounds(&v, 0, v.len());
    assert(v@.subrange(0, v.len() as int) =~= v@);
    let newlines: Vec<char> = vec!['\r', '\n'];
    assert(newlines@ =~= seq!['\r', '\n']);
    let cut = first_of_exec(&v, a, b, &newlines);
    let (a2, b2) = if cut < b {
        assert(v@.subrange(a as int, cut as int) =~= v@.subrange(a as int, b as int).take(cut - a));
        trim_bounds(&v, a, cut)
    } else {
        (a, b)
    };
    if a2 == b2 {
        return None;
    }
    let mut t: Vec<char> = Vec::new();
    let is_www = b2 - a2 >= 4 && lower_equals(&v, a2, a2 + 4, "www.");
    proof {
        if b2 - a2 >= 4 {
            assert(v@.subrange(a2 as int, b2 as int).take(4) =~= v@.subrange(a2 as int, a2 + 4));
        }
    }
    if is_www {
        t = chars_of("https://");
    }
    let ghost prefix = t@;
    let mut i = a2;
    while i < b2
        invariant
            a2 <= i <= b2 <= v.len(),
            t@ == prefix + v@.subrange(a2 as int, i as int),
        decreases b2 - i,
    {
        t.push(v[i]);
        assert(v@.subrange(a2 as int, i + 1) =~= v@.subrange(a2 as int, i as int).push(v@[i as int]));
        i = i + 1;
    }
    // ^[A-Za-z][A-Za-z0-9+.-]*:
    if !(t.len() > 0 && is_ascii_letter_exec(t[0])) {
        return None;
    }
    let mut k: usize = 1;
    while k < t.len() && is_scheme_char_exec(t[k])
        invariant
            1 <= k <= t.len(),
            scheme_end(t@, 1) == scheme_end(t@, k as int),
        decreases t.len() - k,
    {
        k = k + 1;
    }
    if !(k < t.len() && t[k] == ':') {
        return None;
    }
    match url_parts(&t) {
        None => None,
        Some((p, ha, hb)) => {
            let web = lower_equals(&t, 0, p, "http") || lower_equals(&t, 0, p, "https")
                || lower_equals(&t, 0, p, "ftp");
            assert(t@.take(p as int) =~= t@.subrange(0, p as int));
            if web && ha == hb {
                None
            } else if !web && !lower_equals(&t, 0, p, "mailto") {
                None
            } else {
                Some(string_of(&t, 0, t.len()))
            }
        },
    }
}

fn is_ascii_letter_exec(c: char) -> (r: bool)
    ensures
        r == is_ascii_letter(c),
{
    ('a' <= c && c <= 'z') || ('A' <= c && c <= 'Z')
}

fn is_scheme_char_exec(c: char) -> (r: bool)
    ensures
        r == is_scheme_char(c),
{
    is_ascii_letter_exec(c) || ('0' <= c && c <= '9') || c == '+' || c == '.' || c == '-'
}


/// A link destination taken from the clipboard is always an http, https or
/// ftp URL with a host, or a mailto URL: its text before the first `:`,
/// ASCII-lower-cased, is one of those schemes, and a web scheme is followed
/// by a non-empty host.  Ordinary text is never made into a link.
pub proof fn law_link_schemes(clip: Seq<char>)
    ensures
        normalized_link_spec(clip) matches Some(u) ==> {
            let p = first_of(u, seq![':'], 0);
            let scheme = lower_ascii(u.take(p));
            &&& 0 < p < u.len()
            &&& u[p] == ':'
            &&& (scheme == "http"@ || scheme == "https"@ || scheme == "ftp"@ || scheme
                == "mailto"@)
            &&& (scheme != "mailto"@ ==> (url_parts_spec(u) matches Some((_, host)) && host.len()
                > 0))
        },
{
    match normalized_link_spec(clip) {
        Some(u) => {
            lemma_first_of_hit(u, seq![':'], 0);
        },
        None => {},
    }
}

proof fn lemma_first_of_hit(s: Seq<char>, xs: Seq<char>, k: int)
    requires
        0 <= k,
    ensures
        first_of(s, xs, k) >= k,
        first_of(s, xs, k) < s.len() ==> xs.contains(s[first_of(s, xs, k)]),
    decreases s.len() - k,
{
    if k >= s.len() || xs.contains(s[k]) {
    } else {
        lemma_first_of_hit(s, xs, k + 1);
    }
}

} // verus!

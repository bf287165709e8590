//! Inline Markdown markup (bold, italic, links) found in a text, with the byte
//! ranges of the content and of the markers around it.
//!
//! All positions are byte offsets into the UTF-8 encoding of the text.  The
//! scanners work on bytes: every delimiter is ASCII, and in UTF-8 an ASCII
//! byte never occurs inside the encoding of another character.

use vstd::prelude::*;
use vstd::relations::*;
use vstd::seq_lib::*;
use vstd::string::StringSliceAdditionalSpecFns;

verus! {

pub const NEWLINE: u8 = 10;

pub const BACKSLASH: u8 = 92;

pub const OPEN_BRACKET: u8 = 91;

pub const CLOSE_BRACKET: u8 = 93;

pub const OPEN_PAREN: u8 = 40;

pub const CLOSE_PAREN: u8 = 41;

pub const STAR: u8 = 42;

pub const UNDERSCORE: u8 = 95;

#[derive(Debug, Clone, Copy, PartialEq, Eq, Structural)]
pub enum InlineKind {
    Bold,
    Italic,
    Link,
}

/// A byte range `start .. start + length`.
#[derive(Debug, Clone, Copy, PartialEq, Eq, Structural)]
pub struct Span {
    pub start: usize,
    pub length: usize,
}

impl Span {
    /// One past the last byte of the span.
    pub fn end(self) -> (r: usize)
        requires
            self.start + self.length <= usize::MAX,
        ensures
            r == self.start + self.length,
    {
        self.start + self.length
    }
}

/// One piece of inline markup: the range of its content and the ranges of
/// the markers (`**`, `*`, `[`, `](...)`) that delimit it.
#[derive(Debug, Clone, PartialEq, Eq)]
pub struct InlineMarkup {
    pub kind: InlineKind,
    pub content: Span,
    pub markers: Vec<Span>,
}

/// What an [`InlineMarkup`] says: its kind, content span and marker spans.
pub type MarkupModel = (InlineKind, Span, Seq<Span>);

impl View for InlineMarkup {
    type V = MarkupModel;

    open spec fn view(&self) -> MarkupModel {
        (self.kind, self.content, self.markers@)
    }
}

pub open spec fn views(ms: Seq<InlineMarkup>) -> Seq<MarkupModel> {
    ms.map_values(|m: InlineMarkup| m@)
}

pub open spec fn span(start: int, length: int) -> Span {
    Span { start: start as usize, length: length as usize }
}

// ---------------------------------------------------------------------------
// Bold: `**content**` and `__content__`, content at least one character and
// on one line, the shortest such content (a lazy match).
// ---------------------------------------------------------------------------

/// The first position `k' >= k` where the doubled delimiter `dd` closes a bold
/// span, unless a newline or the end of the text comes first.
pub open spec fn bold_close(b: Seq<u8>, d: u8, k: int) -> Option<int>
    decreases b.len() - k,
{
    if k < 0 || k + 1 >= b.len() {
        None
    } else if b[k] == NEWLINE {
        None
    } else if b[k] == d && b[k + 1] == d {
        Some(k)
    } else {
        bold_close(b, d, k + 1)
    }
}

/// Where the bold span that opens at `s` closes, if one opens there.
pub open spec fn bold_at(b: Seq<u8>, d: u8, s: int) -> Option<int> {
    if 0 <= s && s + 2 < b.len() && b[s] == d && b[s + 1] == d && b[s + 2] != NEWLINE {
        bold_close(b, d, s + 3)
    } else {
        None
    }
}

pub open spec fn bold_markup(s: int, c: int) -> MarkupModel {
    (InlineKind::Bold, span(s + 2, c - s - 2), seq![span(s, 2), span(c, 2)])
}

/// The bold spans found by scanning from `i`, leftmost first, each search
/// resuming after the previous match.
pub open spec fn bold_from(b: Seq<u8>, d: u8, i: int) -> Seq<MarkupModel>
    decreases b.len() - i,
{
    if i < 0 || i >= b.len() {
        seq![]
    } else {
        match bold_at(b, d, i) {
            Some(c) => {
                proof {
                    lemma_bold_close_after(b, d, i + 3);
                }
                seq![bold_markup(i, c)] + bold_from(b, d, c + 2)
            },
            None => bold_from(b, d, i + 1),
        }
    }
}

pub proof fn lemma_bold_close_after(b: Seq<u8>, d: u8, k: int)
    ensures
        bold_close(b, d, k) matches Some(c) ==> k <= c && c + 1 < b.len(),
    decreases b.len() - k,
{
    if k < 0 || k + 1 >= b.len() {
    } else if b[k] == NEWLINE {
    } else if b[k] == d && b[k + 1] == d {
    } else {
        lemma_bold_close_after(b, d, k + 1);
    }
}

// ---------------------------------------------------------------------------
// Italic: a single delimiter, content on one line, not next to a doubled
// delimiter.
// ---------------------------------------------------------------------------

/// The first position `k' >= k` holding the delimiter, a newline, or the end.
pub open spec fn italic_stop(b: Seq<u8>, m: u8, k: int) -> int
    decreases b.len() - k,
{
    if k < 0 || k >= b.len() || b[k] == m || b[k] == NEWLINE {
        k
    } else {
        italic_stop(b, m, k + 1)
    }
}

pub open spec fn italic_markup(s: int, j: int) -> MarkupModel {
    (InlineKind::Italic, span(s + 1, j - s - 1), seq![span(s, 1), span(j, 1)])
}

/// The italic spans found by scanning from `i`.
pub open spec fn italic_from(b: Seq<u8>, m: u8, i: int) -> Seq<MarkupModel>
    decreases b.len() - i,
{
    if i < 0 || i >= b.len() {
        seq![]
    } else if b[i] != m {
        italic_from(b, m, i + 1)
    } else if i + 1 < b.len() && b[i + 1] == m {
        italic_from(b, m, i + 2)
    } else {
        let j = italic_stop(b, m, i + 1);
        proof {
            lemma_italic_stop_bounds(b, m, i + 1);
        }
        if j < b.len() && b[j] == m {
            let doubled_close = j + 1 < b.len() && b[j + 1] == m;
            (if !doubled_close && j > i + 1 {
                seq![italic_markup(i, j)]
            } else {
                seq![]
            }) + italic_from(b, m, j + 1)
        } else {
            italic_from(b, m, j)
        }
    }
}

pub proof fn lemma_italic_stop_bounds(b: Seq<u8>, m: u8, k: int)
    ensures
        0 <= k <= b.len() ==> k <= italic_stop(b, m, k) <= b.len(),
    decreases b.len() - k,
{
    if k < 0 || k >= b.len() || b[k] == m || b[k] == NEWLINE {
    } else {
        lemma_italic_stop_bounds(b, m, k + 1);
    }
}

// ---------------------------------------------------------------------------
// Links: `[text](destination)`.  The text is one or more bytes other than
// `]`; the destination is one or more items, each a backslash escape of any
// character but a newline, or any character but `)`, and is closed by `)`.
// Among the ways to read the destination, the one a backtracking matcher
// finds first is taken: an escape is preferred when the rest can still be
// closed, that is when a `)` comes after it.
// ---------------------------------------------------------------------------

/// The last position holding `)`, or -1.
pub open spec fn last_close_paren(b: Seq<u8>, k: int) -> int
    decreases k,
{
    if k <= 0 || k > b.len() {
        -1
    } else if b[k - 1] == CLOSE_PAREN {
        k - 1
    } else {
        last_close_paren(b, k - 1)
    }
}

/// The first position `k' >= k` holding byte `x`, or the end.
pub open spec fn find_byte(b: Seq<u8>, x: u8, k: int) -> int
    decreases b.len() - k,
{
    if k < 0 || k >= b.len() || b[k] == x {
        k
    } else {
        find_byte(b, x, k + 1)
    }
}

/// Reads a link destination from `p`, `l` being the last `)` of the text;
/// gives the position of the closing `)`.
pub open spec fn dest_close(b: Seq<u8>, l: int, p: int, started: bool) -> Option<int>
    decreases l - p,
{
    if p < 0 || p > l || l >= b.len() {
        None
    } else if p + 1 < l && b[p] == BACKSLASH && b[p + 1] != NEWLINE {
        dest_close(b, l, p + 2, true)
    } else if p < l && b[p] != CLOSE_PAREN {
        dest_close(b, l, p + 1, true)
    } else if started && b[p] == CLOSE_PAREN {
        Some(p)
    } else {
        None
    }
}

/// The link that opens at `s`: the position of `]` and of the closing `)`.
pub open spec fn link_at(b: Seq<u8>, l: int, s: int) -> Option<(int, int)> {
    if 0 <= s < b.len() && b[s] == OPEN_BRACKET {
        let j = find_byte(b, CLOSE_BRACKET, s + 1);
        if j > s + 1 && j + 1 < b.len() && b[j + 1] == OPEN_PAREN {
            match dest_close(b, l, j + 2, false) {
                Some(c) => Some((j, c)),
                None => None,
            }
        } else {
            None
        }
    } else {
        None
    }
}

pub open spec fn link_markup(s: int, j: int, c: int) -> MarkupModel {
    (InlineKind::Link, span(s + 1, j - s - 1), seq![span(s, 1), span(j, c + 1 - j)])
}

/// The links found by scanning from `i`.
pub open spec fn links_from(b: Seq<u8>, l: int, i: int) -> Seq<MarkupModel>
    decreases b.len() - i,
{
    if i < 0 || i >= b.len() {
        seq![]
    } else {
        match link_at(b, l, i) {
            Some((j, c)) => {
                proof {
                    lemma_find_byte_bounds(b, CLOSE_BRACKET, i + 1);
                    lemma_dest_close_bounds(b, l, j + 2, false);
                }
                seq![link_markup(i, j, c)] + links_from(b, l, c + 1)
            },
            None => links_from(b, l, i + 1),
        }
    }
}

pub proof fn lemma_find_byte_bounds(b: Seq<u8>, x: u8, k: int)
    ensures
        0 <= k <= b.len() ==> k <= find_byte(b, x, k) <= b.len(),
        0 <= k ==> k <= find_byte(b, x, k),
    decreases b.len() - k,
{
    if k < 0 || k >= b.len() || b[k] == x {
    } else {
        lemma_find_byte_bounds(b, x, k + 1);
    }
}

pub proof fn lemma_dest_close_bounds(b: Seq<u8>, l: int, p: int, started: bool)
    ensures
        dest_close(b, l, p, started) matches Some(c) ==> p <= c <= l && l < b.len() && b[c]
            == CLOSE_PAREN,
    decreases l - p,
{
    if p < 0 || p > l || l >= b.len() {
    } else if p + 1 < l && b[p] == BACKSLASH && b[p + 1] != NEWLINE {
        lemma_dest_close_bounds(b, l, p + 2, true);
    } else if p < l && b[p] != CLOSE_PAREN {
        lemma_dest_close_bounds(b, l, p + 1, true);
    }
}

pub proof fn lemma_last_close_paren(b: Seq<u8>, k: int)
    ensures
        0 <= k <= b.len() ==> -1 <= last_close_paren(b, k) < k,
        last_close_paren(b, k) >= 0 ==> b[last_close_paren(b, k)] == CLOSE_PAREN,
    decreases k,
{
    if k <= 0 || k > b.len() {
    } else if b[k - 1] == CLOSE_PAREN {
    } else {
        lemma_last_close_paren(b, k - 1);
    }
}

/// Every piece of inline markup in the text with these bytes, in the order
/// the editor reports them: bold with `**`, bold with `__`, italic with `*`,
/// italic with `_`, then links.
pub open spec fn inline_markup_spec(b: Seq<u8>) -> Seq<MarkupModel> {
    bold_from(b, STAR, 0) + bold_from(b, UNDERSCORE, 0) + italic_from(b, STAR, 0) + italic_from(
        b,
        UNDERSCORE,
        0,
    ) + links_from(b, last_close_paren(b, b.len() as int), 0)
}

// ---------------------------------------------------------------------------
// Every marker lies inside the text
// ---------------------------------------------------------------------------

/// Every marker of every piece of markup ends at or before `n`.
pub open spec fn markers_within(ms: Seq<MarkupModel>, n: int) -> bool {
    forall|k: int, j: int|
        #![trigger ms[k].2[j]]
        0 <= k < ms.len() && 0 <= j < ms[k].2.len() ==> 1 <= ms[k].2[j].length && ms[k].2[j].start
            + ms[k].2[j].length <= n
}

pub proof fn lemma_within_concat(a: Seq<MarkupModel>, c: Seq<MarkupModel>, n: int)
    requires
        markers_within(a, n),
        markers_within(c, n),
    ensures
        markers_within(a + c, n),
{
    assert forall|k: int, j: int|
        0 <= k < (a + c).len() && 0 <= j < (a + c)[k].2.len() implies 1 <= #[trigger] (a + c)[k].2[j].length
        && (a + c)[k].2[j].start + (a + c)[k].2[j].length <= n by {
        if k < a.len() {
            assert((a + c)[k] == a[k]);
        } else {
            assert((a + c)[k] == c[k - a.len()]);
        }
    }
}

proof fn lemma_one_within(m: MarkupModel, n: int)
    requires
        forall|j: int| 0 <= j < m.2.len() ==> 1 <= #[trigger] m.2[j].length && m.2[j].start + m.2[j].length <= n,
    ensures
        markers_within(seq![m], n),
{
    assert forall|k: int, j: int|
        0 <= k < seq![m].len() && 0 <= j < seq![m][k].2.len() implies 1 <= #[trigger] seq![m][k].2[j].length
        && seq![m][k].2[j].start + seq![m][k].2[j].length <= n by {
        assert(seq![m][k] == m);
    }
}

pub proof fn lemma_bold_within(b: Seq<u8>, d: u8, i: int)
    requires
        b.len() <= usize::MAX,
    ensures
        markers_within(bold_from(b, d, i), b.len() as int),
    decreases b.len() - i,
{
    if i < 0 || i >= b.len() {
    } else {
        match bold_at(b, d, i) {
            Some(c) => {
                lemma_bold_close_after(b, d, i + 3);
                lemma_bold_within(b, d, c + 2);
                let m = bold_markup(i, c);
                assert(m.2[0] == span(i, 2));
                assert(m.2[1] == span(c, 2));
                lemma_one_within(m, b.len() as int);
                lemma_within_concat(seq![m], bold_from(b, d, c + 2), b.len() as int);
            },
            None => {
                lemma_bold_within(b, d, i + 1);
            },
        }
    }
}

pub proof fn lemma_italic_within(b: Seq<u8>, m: u8, i: int)
    requires
        b.len() <= usize::MAX,
    ensures
        markers_within(italic_from(b, m, i), b.len() as int),
    decreases b.len() - i,
{
    if i < 0 || i >= b.len() {
    } else if b[i] != m {
        lemma_italic_within(b, m, i + 1);
    } else if i + 1 < b.len() && b[i + 1] == m {
        lemma_italic_within(b, m, i + 2);
    } else {
        let j = italic_stop(b, m, i + 1);
        lemma_italic_stop_bounds(b, m, i + 1);
        if j < b.len() && b[j] == m {
            let doubled_close = j + 1 < b.len() && b[j + 1] == m;
            lemma_italic_within(b, m, j + 1);
            if !doubled_close && j > i + 1 {
                let mk = italic_markup(i, j);
                assert(mk.2[0] == span(i, 1));
                assert(mk.2[1] == span(j, 1));
                lemma_one_within(mk, b.len() as int);
                lemma_within_concat(seq![mk], italic_from(b, m, j + 1), b.len() as int);
            } else {
                assert(Seq::<MarkupModel>::empty() + italic_from(b, m, j + 1) =~= italic_from(
                    b,
                    m,
                    j + 1,
                ));
            }
        } else {
            lemma_italic_within(b, m, j);
        }
    }
}

pub proof fn lemma_links_within(b: Seq<u8>, l: int, i: int)
    requires
        b.len() <= usize::MAX,
    ensures
        markers_within(links_from(b, l, i), b.len() as int),
    decreases b.len() - i,
{
    if i < 0 || i >= b.len() {
    } else {
        match link_at(b, l, i) {
            Some((j, c)) => {
                lemma_find_byte_bounds(b, CLOSE_BRACKET, i + 1);
                lemma_dest_close_bounds(b, l, j + 2, false);
                lemma_links_within(b, l, c + 1);
                let mk = link_markup(i, j, c);
                assert(mk.2[0] == span(i, 1));
                assert(mk.2[1] == span(j, c + 1 - j));
                lemma_one_within(mk, b.len() as int);
                lemma_within_concat(seq![mk], links_from(b, l, c + 1), b.len() as int);
            },
            None => {
                lemma_links_within(b, l, i + 1);
            },
        }
    }
}

/// Every marker that [`inline_markup`] reports lies inside the text.
pub proof fn lemma_inline_markup_within(b: Seq<u8>)
    requires
        b.len() <= usize::MAX,
    ensures
        markers_within(inline_markup_spec(b), b.len() as int),
{
    let n = b.len() as int;
    let l = last_close_paren(b, n);
    lemma_bold_within(b, STAR, 0);
    lemma_bold_within(b, UNDERSCORE, 0);
    lemma_italic_within(b, STAR, 0);
    lemma_italic_within(b, UNDERSCORE, 0);
    lemma_links_within(b, l, 0);
    lemma_within_concat(bold_from(b, STAR, 0), bold_from(b, UNDERSCORE, 0), n);
    lemma_within_concat(
        bold_from(b, STAR, 0) + bold_from(b, UNDERSCORE, 0),
        italic_from(b, STAR, 0),
        n,
    );
    lemma_within_concat(
        bold_from(b, STAR, 0) + bold_from(b, UNDERSCORE, 0) + italic_from(b, STAR, 0),
        italic_from(b, UNDERSCORE, 0),
        n,
    );
    lemma_within_concat(
        bold_from(b, STAR, 0) + bold_from(b, UNDERSCORE, 0) + italic_from(b, STAR, 0)
            + italic_from(b, UNDERSCORE, 0),
        links_from(b, l, 0),
        n,
    );
}

// ---------------------------------------------------------------------------
// Executable scanners
// ---------------------------------------------------------------------------

fn markup(kind: InlineKind, start: usize, length: usize, m1: Span, m2: Span) -> (r: InlineMarkup)
    ensures
        r@ == (kind, Span { start, length }, seq![m1, m2]),
{
    let r = InlineMarkup { kind, content: Span { start, length }, markers: vec![m1, m2] };
    assert(r.markers@ =~= seq![m1, m2]);
    r
}

proof fn lemma_views_push(ms: Seq<InlineMarkup>, m: InlineMarkup)
    ensures
        views(ms.push(m)) == views(ms).push(m@),
{
    assert(views(ms.push(m)) =~= views(ms).push(m@));
}

fn bold_at_exec(b: &[u8], d: u8, s: usize) -> (r: Option<usize>)
    requires
        s < b.len(),
    ensures
        match bold_at(b@, d, s as int) {
            Some(c) => r == Some(c as usize),
            None => r is None,
        },
{
    if b.len() - s > 2 && b[s] == d && b[s + 1] == d && b[s + 2] != NEWLINE {
        let mut k = s + 3;
        while k < b.len() - 1
            invariant
                s + 3 <= k <= b.len(),
                bold_at(b@, d, s as int) == bold_close(b@, d, (s + 3) as int),
                bold_close(b@, d, (s + 3) as int) == bold_close(b@, d, k as int),
            decreases b.len() - k,
        {
            if b[k] == NEWLINE {
                return None;
            }
            if b[k] == d && b[k + 1] == d {
                assert(bold_close(b@, d, k as int) == Some(k as int));
                return Some(k);
            }
            k = k + 1;
        }
        None
    } else {
        None
    }
}

fn push_bold(b: &[u8], d: u8, out: &mut Vec<InlineMarkup>)
    ensures
        views(final(out)@) == views(old(out)@) + bold_from(b@, d, 0),
{
    let mut i: usize = 0;
    while i < b.len()
        invariant
            i <= b.len(),
            views(out@) + bold_from(b@, d, i as int) == views(old(out)@) + bold_from(b@, d, 0),
        decreases b.len() - i,
    {
        match bold_at_exec(b, d, i) {
            Some(c) => {
                proof {
                    lemma_bold_close_after(b@, d, i + 3);
                }
                let m = markup(
                    InlineKind::Bold,
                    i + 2,
                    c - i - 2,
                    Span { start: i, length: 2 },
                    Span { start: c, length: 2 },
                );
                assert(m@ == bold_markup(i as int, c as int));
                proof {
                    lemma_views_push(out@, m);
                }
                out.push(m);
                assert(views(out@) + bold_from(b@, d, c + 2) =~= views(old(out)@) + bold_from(b@, d, 0));
                i = c + 2;
            },
            None => {
                i = i + 1;
            },
        }
    }
    assert(bold_from(b@, d, i as int) =~= Seq::<MarkupModel>::empty());
    assert(views(out@) =~= views(old(out)@) + bold_from(b@, d, 0));
}

fn push_italic(b: &[u8], m: u8, out: &mut Vec<InlineMarkup>)
    ensures
        views(final(out)@) == views(old(out)@) + italic_from(b@, m, 0),
{
    let mut i: usize = 0;
    while i < b.len()
        invariant
            i <= b.len(),
            views(out@) + italic_from(b@, m, i as int) == views(old(out)@) + italic_from(
                b@,
                m,
                0,
            ),
        decreases b.len() - i,
    {
        if b[i] != m {
            i = i + 1;
        } else if i < b.len() - 1 && b[i + 1] == m {
            i = i + 2;
        } else {
            let start = i;
            let mut j = i + 1;
            while j < b.len() && b[j] != m && b[j] != NEWLINE
                invariant
                    start + 1 <= j <= b.len(),
                    italic_stop(b@, m, start + 1) == italic_stop(b@, m, j as int),
                decreases b.len() - j,
            {
                j = j + 1;
            }
            if j < b.len() && b[j] == m {
                let doubled_close = j < b.len() - 1 && b[j + 1] == m;
                if !doubled_close && j > start + 1 {
                    let mk = markup(
                        InlineKind::Italic,
                        start + 1,
                        j - start - 1,
                        Span { start, length: 1 },
                        Span { start: j, length: 1 },
                    );
                    proof {
                        lemma_views_push(out@, mk);
                    }
                    assert(mk@ == italic_markup(start as int, j as int));
                    out.push(mk);
                    assert(views(out@) + italic_from(b@, m, j + 1) =~= views(old(out)@)
                        + italic_from(b@, m, 0));
                } else {
                    assert(views(out@) + italic_from(b@, m, j + 1) =~= views(old(out)@)
                        + italic_from(b@, m, 0));
                }
                i = j + 1;
            } else {
                i = j;
            }
        }
    }
    assert(italic_from(b@, m, i as int) =~= Seq::<MarkupModel>::empty());
    assert(views(out@) =~= views(old(out)@) + italic_from(b@, m, 0));
}

/// The position of the last `)`, if any.
fn last_close_paren_exec(b: &[u8]) -> (r: Option<usize>)
    ensures
        match r {
            Some(l) => last_close_paren(b@, b.len() as int) == l as int,
            None => last_close_paren(b@, b.len() as int) == -1,
        },
{
    let mut k = b.len();
    while k > 0
        invariant
            k <= b.len(),
            last_close_paren(b@, b.len() as int) == last_close_paren(b@, k as int),
        decreases k,
    {
        if b[k - 1] == CLOSE_PAREN {
            return Some(k - 1);
        }
        k = k - 1;
    }
    None
}

fn link_at_exec(b: &[u8], l: Option<usize>, s: usize) -> (r: Option<(usize, usize)>)
    requires
        s < b.len(),
        match l {
            Some(l) => last_close_paren(b@, b.len() as int) == l as int,
            None => last_close_paren(b@, b.len() as int) == -1,
        },
    ensures
        match link_at(b@, last_close_paren(b@, b.len() as int), s as int) {
            Some((j, c)) => r == Some((j as usize, c as usize)),
            None => r is None,
        },
{
    let ghost lp = last_close_paren(b@, b.len() as int);
    proof {
        lemma_last_close_paren(b@, b.len() as int);
    }
    if b[s] != OPEN_BRACKET {
        return None;
    }
    let mut j = s + 1;
    while j < b.len() && b[j] != CLOSE_BRACKET
        invariant
            s + 1 <= j <= b.len(),
            find_byte(b@, CLOSE_BRACKET, s + 1) == find_byte(b@, CLOSE_BRACKET, j as int),
        decreases b.len() - j,
    {
        j = j + 1;
    }
    if !(j > s + 1 && j < b.len() - 1 && b[j + 1] == OPEN_PAREN) {
        return None;
    }
    let l = match l {
        Some(l) => l,
        None => {
            return None;
        },
    };
    let mut p = j + 2;
    if p > l {
        return None;
    }
    let mut started = false;
    assert(find_byte(b@, CLOSE_BRACKET, s + 1) == j as int);
    loop
        invariant
            j + 2 <= p <= l < b.len(),
            lp == l as int,
            lp == last_close_paren(b@, b.len() as int),
            s < b.len(),
            b@[s as int] == OPEN_BRACKET,
            find_byte(b@, CLOSE_BRACKET, s + 1) == j as int,
            j > s + 1,
            j + 1 < b.len(),
            b@[j + 1] == OPEN_PAREN,
            dest_close(b@, l as int, j + 2, false) == dest_close(b@, l as int, p as int, started),
        decreases l - p,
    {
        if p + 1 < l && b[p] == BACKSLASH && b[p + 1] != NEWLINE {
            p = p + 2;
            started = true;
        } else if p < l && b[p] != CLOSE_PAREN {
            p = p + 1;
            started = true;
        } else if started && b[p] == CLOSE_PAREN {
            assert(dest_close(b@, l as int, p as int, started) == Some(p as int));
            assert(find_byte(b@, CLOSE_BRACKET, s + 1) == j as int);
            assert(link_at(b@, lp, s as int) == Some((j as int, p as int)));
            return Some((j, p));
        } else {
            assert(dest_close(b@, l as int, p as int, started) is None);
            assert(find_byte(b@, CLOSE_BRACKET, s + 1) == j as int);
            assert(link_at(b@, lp, s as int) is None);
            return None;
        }
    }
}

fn push_links(b: &[u8], out: &mut Vec<InlineMarkup>)
    ensures
        views(final(out)@) == views(old(out)@) + links_from(
            b@,
            last_close_paren(b@, b.len() as int),
            0,
        ),
{
    let ghost lp = last_close_paren(b@, b.len() as int);
    let l = last_close_paren_exec(b);
    let mut i: usize = 0;
    while i < b.len()
        invariant
            i <= b.len(),
            lp == last_close_paren(b@, b.len() as int),
            match l {
                Some(l) => lp == l as int,
                None => lp == -1,
            },
            views(out@) + links_from(b@, lp, i as int) == views(old(out)@) + links_from(
                b@,
                lp,
                0,
            ),
        decreases b.len() - i,
    {
        match link_at_exec(b, l, i) {
            Some((j, c)) => {
                proof {
                    lemma_find_byte_bounds(b@, CLOSE_BRACKET, i + 1);
                    lemma_dest_close_bounds(b@, lp, j + 2, false);
                }
                let mk = markup(
                    InlineKind::Link,
                    i + 1,
                    j - i - 1,
                    Span { start: i, length: 1 },
                    Span { start: j, length: c + 1 - j },
                );
                proof {
                    lemma_views_push(out@, mk);
                }
                assert(mk@ == link_markup(i as int, j as int, c as int));
                out.push(mk);
                assert(views(out@) + links_from(b@, lp, c + 1) =~= views(old(out)@) + links_from(
                    b@,
                    lp,
                    0,
                ));
                i = c + 1;
            },
            None => {
                i = i + 1;
            },
        }
    }
    assert(links_from(b@, lp, i as int) =~= Seq::<MarkupModel>::empty());
    assert(views(out@) =~= views(old(out)@) + links_from(b@, lp, 0));
}

/// Every piece of inline markup in `text`: bold (`**x**`, `__x__`), italic
/// (`*x*`, `_x_`) and links (`[x](url)`), with byte offsets.
pub fn inline_markup(text: &str) -> (r: Vec<InlineMarkup>)
    ensures
        views(r@) == inline_markup_spec(text.spec_bytes()),
{
    let b = text.as_bytes();
    let mut out: Vec<InlineMarkup> = Vec::new();
    assert(views(out@) =~= Seq::<MarkupModel>::empty());
    push_bold(b, STAR, &mut out);
    push_bold(b, UNDERSCORE, &mut out);
    push_italic(b, STAR, &mut out);
    push_italic(b, UNDERSCORE, &mut out);
    push_links(b, &mut out);
    assert(views(out@) =~= inline_markup_spec(text.spec_bytes()));
    out
}


// ---------------------------------------------------------------------------
// Laws of italic markup
// ---------------------------------------------------------------------------

/// An italic item for the delimiter byte `m`: a delimiter opens it, one
/// closes it on the same line with content between, the content holds
/// neither the delimiter nor a newline, and each marker is one byte.
pub open spec fn italic_item_ok(b: Seq<u8>, m: u8, it: MarkupModel) -> bool {
    let o = it.2[0].start as int;
    let c = it.2[1].start as int;
    &&& it.0 == InlineKind::Italic
    &&& it.2.len() == 2
    &&& it.2[0].length == 1
    &&& it.2[1].length == 1
    &&& 0 <= o
    &&& o + 1 < c < b.len()
    &&& b[o] == m
    &&& b[c] == m
    &&& it.1.start == o + 1
    &&& it.1.length == c - o - 1
    &&& forall|p: int| o < p < c ==> #[trigger] b[p] != m && b[p] != NEWLINE
}

proof fn lemma_italic_stop_clear(b: Seq<u8>, m: u8, k: int)
    requires
        0 <= k <= b.len(),
    ensures
        forall|p: int| k <= p < italic_stop(b, m, k) ==> #[trigger] b[p] != m && b[p] != NEWLINE,
    decreases b.len() - k,
{
    if k >= b.len() || b[k] == m || b[k] == NEWLINE {
    } else {
        lemma_italic_stop_clear(b, m, k + 1);
    }
}

proof fn lemma_italic_from(b: Seq<u8>, m: u8, i: int)
    requires
        0 <= i,
        b.len() <= usize::MAX,
    ensures
        forall|k: int|
            0 <= k < italic_from(b, m, i).len() ==> italic_item_ok(
                b,
                m,
                #[trigger] italic_from(b, m, i)[k],
            ) && italic_from(b, m, i)[k].2[0].start >= i,
        forall|k: int, l: int|
            0 <= k < l < italic_from(b, m, i).len() ==> (#[trigger] italic_from(b, m, i)[k]).2[1].start
                < (#[trigger] italic_from(b, m, i)[l]).2[0].start,
    decreases b.len() - i,
{
    if i >= b.len() {
    } else if b[i] != m {
        lemma_italic_from(b, m, i + 1);
        assert(italic_from(b, m, i) == italic_from(b, m, i + 1));
    } else if i + 1 < b.len() && b[i + 1] == m {
        lemma_italic_from(b, m, i + 2);
        assert(italic_from(b, m, i) == italic_from(b, m, i + 2));
    } else {
        let j = italic_stop(b, m, i + 1);
        lemma_italic_stop_bounds(b, m, i + 1);
        lemma_italic_stop_clear(b, m, i + 1);
        if j < b.len() && b[j] == m {
            let doubled_close = j + 1 < b.len() && b[j + 1] == m;
            lemma_italic_from(b, m, j + 1);
            let rest = italic_from(b, m, j + 1);
            let its = italic_from(b, m, i);
            if !doubled_close && j > i + 1 {
                let mk = italic_markup(i, j);
                assert(its == seq![mk] + rest);
                assert(mk.2[0] == span(i, 1));
                assert(mk.2[1] == span(j, 1));
                assert(italic_item_ok(b, m, mk));
                assert forall|k: int| 0 <= k < its.len() implies italic_item_ok(
                    b,
                    m,
                    #[trigger] its[k],
                ) && its[k].2[0].start >= i by {
                    if k > 0 {
                        assert(its[k] == rest[k - 1]);
                    }
                }
                assert forall|k: int, l: int| 0 <= k < l < its.len() implies (
                #[trigger] its[k]).2[1].start < (#[trigger] its[l]).2[0].start by {
                    assert(its[l] == rest[l - 1]);
                    if k > 0 {
                        assert(its[k] == rest[k - 1]);
                    }
                }
            } else {
                assert(its == Seq::<MarkupModel>::empty() + rest);
                assert(its =~= rest);
            }
        } else {
            lemma_italic_from(b, m, j);
            assert(italic_from(b, m, i) == italic_from(b, m, j));
        }
    }
}

/// Italic markup, for either delimiter, pairs delimiters without sharing
/// any: each item is opened and closed by the delimiter on one line with
/// content between that holds no delimiter, and the items come in order
/// with each one starting after the previous one's closing delimiter, so a
/// delimiter that closes one item never opens another.
pub proof fn law_italic_markers_disjoint(b: Seq<u8>, m: u8)
    requires
        b.len() <= usize::MAX,
    ensures
        forall|k: int|
            0 <= k < italic_from(b, m, 0).len() ==> italic_item_ok(
                b,
                m,
                #[trigger] italic_from(b, m, 0)[k],
            ),
        forall|k: int, l: int|
            0 <= k < l < italic_from(b, m, 0).len() ==> (#[trigger] italic_from(b, m, 0)[k]).2[1].start
                < (#[trigger] italic_from(b, m, 0)[l]).2[0].start,
{
    lemma_italic_from(b, m, 0);
}

} // verus!

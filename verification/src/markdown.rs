//! Markdown editing helpers: the markers to hide around the cursor's line,
//! search, smart return, links and escaping.

use vstd::prelude::*;
use vstd::multiset::*;
use vstd::relations::*;
use vstd::seq_lib::*;
use vstd::string::StringSliceAdditionalSpecFns;
use vstd::utf8::*;

use crate::inline::{
    find_byte, inline_markup, inline_markup_spec, lemma_find_byte_bounds,
    lemma_inline_markup_within, markers_within, views, MarkupModel, Span, NEWLINE,
};
use crate::text::{
    ascii_lower, chars_equal_str, chars_of, decimal, lemma_encode_concat, is_ascii_digit, is_ascii_digit_char, is_white_space, is_whitespace,
    lemma_ascii_boundaries, push_char, push_chars, push_decimal, push_str, string_from, string_of,
};
use crate::unicode::{class_contains, CharClass, UnicodeClass};

verus! {

broadcast use vstd::string::group_string_axioms;

// ---------------------------------------------------------------------------
// Lines
// ---------------------------------------------------------------------------

/// The last position before `k` holding byte `x`, or -1.
pub open spec fn last_byte_before(b: Seq<u8>, x: u8, k: int) -> int
    decreases k,
{
    if k <= 0 || k > b.len() {
        -1
    } else if b[k - 1] == x {
        k - 1
    } else {
        last_byte_before(b, x, k - 1)
    }
}

pub proof fn lemma_last_byte_before(b: Seq<u8>, x: u8, k: int)
    ensures
        0 <= k <= b.len() ==> -1 <= last_byte_before(b, x, k) < k,
        last_byte_before(b, x, k) >= 0 ==> b[last_byte_before(b, x, k)] == x,
    decreases k,
{
    if k <= 0 || k > b.len() {
    } else if b[k - 1] == x {
    } else {
        lemma_last_byte_before(b, x, k - 1);
    }
}

/// Where the line holding byte position `p` starts.
pub open spec fn line_start(b: Seq<u8>, p: int) -> int {
    last_byte_before(b, NEWLINE, p) + 1
}

/// Where the line that starts at `s` ends (its newline, or the end).
pub open spec fn line_end(b: Seq<u8>, s: int) -> int {
    find_byte(b, NEWLINE, s)
}

fn line_start_exec(b: &[u8], p: usize) -> (r: usize)
    requires
        p <= b.len(),
    ensures
        r == line_start(b@, p as int),
        r <= p,
{
    proof {
        lemma_last_byte_before(b@, NEWLINE, p as int);
    }
    let mut k = p;
    while k > 0
        invariant
            k <= p <= b.len(),
            last_byte_before(b@, NEWLINE, p as int) == last_byte_before(b@, NEWLINE, k as int),
        decreases k,
    {
        if b[k - 1] == NEWLINE {
            return k;
        }
        k = k - 1;
    }
    0
}

fn line_end_exec(b: &[u8], s: usize) -> (r: usize)
    requires
        s <= b.len(),
    ensures
        r == line_end(b@, s as int),
        s <= r <= b.len(),
{
    let mut k = s;
    while k < b.len() && b[k] != NEWLINE
        invariant
            s <= k <= b.len(),
            find_byte(b@, NEWLINE, s as int) == find_byte(b@, NEWLINE, k as int),
        decreases b.len() - k,
    {
        k = k + 1;
    }
    k
}

/// Line start and line end of a text are character boundaries.
proof fn lemma_line_boundaries(b: Seq<u8>, p: int)
    requires
        valid_utf8(b),
        0 <= p <= b.len(),
    ensures
        is_char_boundary(b, line_start(b, p)),
        is_char_boundary(b, line_end(b, line_start(b, p))),
        0 <= line_start(b, p) <= p,
        line_start(b, p) <= line_end(b, line_start(b, p)) <= b.len(),
{
    lemma_last_byte_before(b, NEWLINE, p);
    let k = last_byte_before(b, NEWLINE, p);
    is_char_boundary_start_end_of_seq(b);
    if k >= 0 {
        lemma_ascii_boundaries(b, k);
    }
    let s = k + 1;
    lemma_find_byte_bounds(b, NEWLINE, s);
    let e = find_byte(b, NEWLINE, s);
    lemma_find_byte_hit(b, NEWLINE, s);
    if e < b.len() {
        lemma_ascii_boundaries(b, e);
    }
}

pub proof fn lemma_find_byte_hit(b: Seq<u8>, x: u8, k: int)
    ensures
        0 <= k ==> (find_byte(b, x, k) < b.len() ==> b[find_byte(b, x, k)] == x),
        0 <= k ==> forall|i: int| k <= i < find_byte(b, x, k) ==> b[i] != x,
    decreases b.len() - k,
{
    if k < 0 || k >= b.len() || b[k] == x {
    } else {
        lemma_find_byte_hit(b, x, k + 1);
    }
}

/// The sub-slice of `text` between two character boundaries.
pub(crate) fn slice_between(text: &str, a: usize, e: usize) -> (r: &str)
    requires
        a <= e <= text.spec_bytes().len(),
        is_char_boundary(text.spec_bytes(), a as int),
        is_char_boundary(text.spec_bytes(), e as int),
    ensures
        r.spec_bytes() == text.spec_bytes().subrange(a as int, e as int),
{
    let ghost b = text.spec_bytes();
    proof {
        encode_utf8_valid_utf8(text@);
    }
    let (head, _) = text.split_at(e);
    proof {
        valid_utf8_split(b, e as int);
        let hb = b.subrange(0, e as int);
        assert(head.spec_bytes() == hb);
        // `a` is a boundary of the prefix too
        if a == e {
            is_char_boundary_start_end_of_seq(hb);
        } else if a == 0 {
            is_char_boundary_start_end_of_seq(hb);
        } else {
            is_char_boundary_iff_not_is_continuation_byte(b, a as int);
            is_char_boundary_iff_not_is_continuation_byte(hb, a as int);
        }
    }
    let (_, r) = head.split_at(a);
    assert(r.spec_bytes() =~= b.subrange(a as int, e as int));
    r
}

// ---------------------------------------------------------------------------
// Hidden marker ranges
// ---------------------------------------------------------------------------

/// Lexicographic order on byte ranges.
pub open spec fn pair_le(x: (usize, usize), y: (usize, usize)) -> bool {
    x.0 < y.0 || (x.0 == y.0 && x.1 <= y.1)
}

pub open spec fn pair_order() -> spec_fn((usize, usize), (usize, usize)) -> bool {
    |x: (usize, usize), y: (usize, usize)| pair_le(x, y)
}

pub proof fn lemma_pair_order_total()
    ensures
        total_ordering(pair_order()),
{
    let r = pair_order();
    assert(reflexive(r));
    assert(antisymmetric(r));
    assert(transitive(r));
    assert(strongly_connected(r));
}

/// The byte ranges of `spans`, shifted by `off`.
pub open spec fn ranges_of(spans: Seq<Span>, off: int) -> Seq<(usize, usize)> {
    spans.map_values(|s: Span| ((off + s.start) as usize, (off + s.start + s.length) as usize))
}

/// The ranges of all markers of `ms`, in order, shifted by `off`.
pub open spec fn marker_ranges(ms: Seq<MarkupModel>, off: int) -> Seq<(usize, usize)>
    decreases ms.len(),
{
    if ms.len() == 0 {
        seq![]
    } else {
        marker_ranges(ms.drop_last(), off) + ranges_of(ms.last().2, off)
    }
}

/// The marker ranges on the line holding `position`, as offsets into the
/// whole text, in increasing order.
pub open spec fn hidden_ranges_spec(b: Seq<u8>, position: int) -> Seq<(usize, usize)> {
    let p = if position < b.len() {
        position
    } else {
        b.len() as int
    };
    let s = line_start(b, p);
    let e = line_end(b, s);
    marker_ranges(inline_markup_spec(b.subrange(s, e)), s).sort_by(pair_order())
}

/// The byte ranges of the Markdown markers on the line that holds
/// `position` (clamped to the end of the text), sorted.
pub fn hidden_ranges_at(text: &str, position: usize) -> (r: Vec<(usize, usize)>)
    requires
        is_char_boundary(
            text.spec_bytes(),
            if position < text.spec_bytes().len() {
                position as int
            } else {
                text.spec_bytes().len() as int
            },
        ),
    ensures
        r@ == hidden_ranges_spec(text.spec_bytes(), position as int),
{
    let b = text.as_bytes();
    let p = if position < b.len() {
        position
    } else {
        b.len()
    };
    let s = line_start_exec(b, p);
    let e = line_end_exec(b, s);
    proof {
        encode_utf8_valid_utf8(text@);
        lemma_line_boundaries(b@, p as int);
    }
    let line = slice_between(text, s, e);
    let ms = inline_markup(line);
    let ghost mv = inline_markup_spec(b@.subrange(s as int, e as int));
    proof {
        lemma_inline_markup_within(b@.subrange(s as int, e as int));
    }
    let mut spans: Vec<(usize, usize)> = Vec::new();
    let mut i: usize = 0;
    while i < ms.len()
        invariant
            i <= ms.len(),
            views(ms@) == mv,
            s <= e <= b.len(),
            markers_within(mv, (e - s) as int),
            spans@ == marker_ranges(mv.take(i as int), s as int),
        decreases ms.len() - i,
    {
        let mk = &ms[i];
        assert(mv[i as int] == mk@);
        let mut k: usize = 0;
        while k < mk.markers.len()
            invariant
                k <= mk.markers.len(),
                mk@ == mv[i as int],
                i < ms.len(),
                views(ms@) == mv,
                s <= e <= b.len(),
                markers_within(mv, (e - s) as int),
                spans@ == marker_ranges(mv.take(i as int), s as int) + ranges_of(
                    mk.markers@.take(k as int),
                    s as int,
                ),
            decreases mk.markers.len() - k,
        {
            let sp = mk.markers[k];
            assert(mv[i as int].2[k as int] == sp);
            let pair = (s + sp.start, s + sp.start + sp.length);
            spans.push(pair);
            assert(ranges_of(mk.markers@.take(k + 1), s as int) =~= ranges_of(
                mk.markers@.take(k as int),
                s as int,
            ).push(pair));
            k = k + 1;
        }
        assert(mk.markers@.take(k as int) =~= mk.markers@);
        assert(mv.take(i + 1).drop_last() =~= mv.take(i as int));
        assert(mv.take(i + 1).last() == mv[i as int]);
        i = i + 1;
    }
    assert(mv.take(i as int) =~= mv);
    sort_pairs(spans)
}

/// `v` sorted in lexicographic order.
fn sort_pairs(v: Vec<(usize, usize)>) -> (r: Vec<(usize, usize)>)
    ensures
        r@ == v@.sort_by(pair_order()),
{
    let mut out: Vec<(usize, usize)> = Vec::new();
    let mut i: usize = 0;
    proof {
        broadcast use group_to_multiset_ensures;
        assert(v@.take(0) =~= Seq::<(usize, usize)>::empty());
        assert(out@ =~= Seq::<(usize, usize)>::empty());
    }
    while i < v.len()
        invariant
            i <= v.len(),
            sorted_by(out@, pair_order()),
            out@.to_multiset() == v@.take(i as int).to_multiset(),
        decreases v.len() - i,
    {
        let x = v[i];
        let mut p: usize = 0;
        while p < out.len() && (out[p].0 < x.0 || (out[p].0 == x.0 && out[p].1 <= x.1))
            invariant
                p <= out.len(),
                forall|k: int| 0 <= k < p ==> pair_le(#[trigger] out@[k], x),
            decreases out.len() - p,
        {
            p = p + 1;
        }
        let ghost before = out@;
        out.insert(p, x);
        proof {
            lemma_pair_order_total();
            // the new sequence is sorted
            assert forall|a: int, c: int| 0 <= a < c < out@.len() implies #[trigger] pair_le(
                out@[a],
                out@[c],
            ) by {
                if p < before.len() {
                    assert(!pair_le(before[p as int], x));
                }
                if a < p && c < p {
                    assert(pair_order()(before[a], before[c]));
                } else if a < p && c == p {
                } else if a < p {
                    assert(pair_le(before[a], x));
                    assert(pair_order()(before[a], before[c - 1]));
                } else if a == p {
                    assert(pair_order()(before[p as int], before[c - 1]));
                } else {
                    assert(pair_order()(before[a - 1], before[c - 1]));
                }
            }
            // and holds the same elements
            assert(before =~= before.subrange(0, p as int) + before.subrange(
                p as int,
                before.len() as int,
            ));
            assert(out@ =~= before.subrange(0, p as int).push(x) + before.subrange(
                p as int,
                before.len() as int,
            ));
            lemma_multiset_commutative(
                before.subrange(0, p as int).push(x),
                before.subrange(p as int, before.len() as int),
            );
            lemma_multiset_commutative(
                before.subrange(0, p as int),
                before.subrange(p as int, before.len() as int),
            );
            to_multiset_build(before.subrange(0, p as int), x);
            assert(v@.take(i + 1) =~= v@.take(i as int).push(x));
            to_multiset_build(v@.take(i as int), x);
            assert(out@.to_multiset() =~= v@.take(i + 1).to_multiset());
        }
        i = i + 1;
    }
    proof {
        lemma_pair_order_total();
        assert(v@.take(i as int) =~= v@);
        v@.lemma_sort_by_ensures(pair_order());
        lemma_sorted_unique(out@, v@.sort_by(pair_order()), pair_order());
    }
    out
}

// ---------------------------------------------------------------------------
// Case-insensitive search
// ---------------------------------------------------------------------------

/// A match of the search query: byte range `start..end` of the text searched.
#[derive(Debug, Clone, Copy, PartialEq, Eq, Structural)]
pub struct SearchMatch {
    pub start: usize,
    pub end: usize,
}

/// What `str::to_lowercase` gives for this text: its Unicode lower case,
/// taken over the whole text (a capital sigma becomes the final form `ς` at
/// the end of a word).
pub uninterp spec fn lowercase(s: Seq<char>) -> Seq<char>;

pub open spec fn all_ascii(s: Seq<char>) -> bool {
    forall|k: int| 0 <= k < s.len() ==> (#[trigger] s[k] as u32) < 128
}

/// `str::to_lowercase`.  ASCII text is lower-cased letter by letter, its
/// other characters kept.
#[verifier::external_body]
pub(crate) fn to_lowercase(s: &str) -> (r: String)
    ensures
        r@ == lowercase(s@),
        all_ascii(s@) ==> r@ == s@.map_values(|c: char| ascii_lower(c)),
{
    s.to_lowercase()
}

/// The position in bytes of character `i` of `h`.
pub open spec fn byte_offset(h: Seq<char>, i: int) -> int {
    encode_utf8(h.take(i)).len() as int
}

/// The first `j' >= j` past `i` such that the characters `i..j'` of `h`,
/// lower-cased together, give `lq`.  Only ranges no longer than `lq` are
/// looked at: lower-casing turns each character into one or more, so a
/// longer range cannot give `lq`.
pub open spec fn match_end(h: Seq<char>, lq: Seq<char>, i: int, j: int) -> Option<int>
    decreases h.len() + 1 - j,
{
    if j < 0 || j > h.len() || j > i + lq.len() {
        None
    } else if i < j && lowercase(h.subrange(i, j)) == lq {
        Some(j)
    } else {
        match_end(h, lq, i, j + 1)
    }
}

pub proof fn lemma_match_end(h: Seq<char>, lq: Seq<char>, i: int, j: int)
    requires
        0 <= i < j,
    ensures
        match_end(h, lq, i, j) matches Some(e) ==> j <= e <= h.len() && e <= i + lq.len() && i < e
            && lowercase(h.subrange(i, e)) == lq,
        match_end(h, lq, i, j) is None ==> forall|e: int|
            j <= e <= h.len() && e <= i + lq.len() ==> lowercase(#[trigger] h.subrange(i, e)) != lq,
    decreases h.len() + 1 - j,
{
    if j > h.len() || j > i + lq.len() {
    } else if lowercase(h.subrange(i, j)) == lq {
    } else {
        lemma_match_end(h, lq, i, j + 1);
    }
}

/// The matches, as character ranges, found scanning from character `i`:
/// at each position the shortest range lower-casing to `fq`, then on after it.
pub open spec fn ci_spans(h: Seq<char>, fq: Seq<char>, i: int) -> Seq<(int, int)>
    decreases h.len() - i,
{
    if i < 0 || i >= h.len() {
        seq![]
    } else {
        match match_end(h, fq, i, i + 1) {
            Some(j) => {
                proof {
                    lemma_match_end(h, fq, i, i + 1);
                }
                seq![(i, j)] + ci_spans(h, fq, j)
            },
            None => ci_spans(h, fq, i + 1),
        }
    }
}

/// A character range of `h` as a byte range.
pub open spec fn to_match(h: Seq<char>, sp: (int, int)) -> SearchMatch {
    SearchMatch { start: byte_offset(h, sp.0) as usize, end: byte_offset(h, sp.1) as usize }
}

/// The character ranges that [`find_all`] reports.
pub open spec fn find_spans(haystack: Seq<char>, query: Seq<char>) -> Seq<(int, int)> {
    if query.len() == 0 {
        seq![]
    } else {
        ci_spans(haystack, lowercase(query), 0)
    }
}

/// What [`find_all`] reports: the ranges of `haystack` that equal `query`
/// ignoring case, found left to right without overlapping, as byte ranges.
pub open spec fn find_all_spec(haystack: Seq<char>, query: Seq<char>) -> Seq<SearchMatch> {
    find_spans(haystack, query).map_values(|sp: (int, int)| to_match(haystack, sp))
}

/// Byte offsets grow with the character index, up to the whole encoding.
pub proof fn lemma_byte_offset_mono(h: Seq<char>, i: int, j: int)
    requires
        0 <= i <= j <= h.len(),
    ensures
        byte_offset(h, i) <= byte_offset(h, j) <= encode_utf8(h).len(),
        i < j ==> byte_offset(h, i) < byte_offset(h, j),
{
    lemma_encode_concat(h.take(i), h.subrange(i, j));
    assert(h.take(i) + h.subrange(i, j) =~= h.take(j));
    lemma_encode_concat(h.take(j), h.skip(j));
    assert(h.take(j) + h.skip(j) =~= h);
    if i < j {
        assert(encode_utf8(h.subrange(i, j)).len() > 0) by {
            char_is_scalar(h.subrange(i, j)[0]);
        }
    }
}

/// The byte offset of a character index falls on a character boundary.
pub proof fn lemma_byte_offset_boundary(h: Seq<char>, i: int)
    requires
        0 <= i <= h.len(),
    ensures
        is_char_boundary(encode_utf8(h), byte_offset(h, i)),
    decreases i,
{
    encode_utf8_valid_utf8(h);
    if i == 0 {
        assert(h.take(0) =~= Seq::<char>::empty());
    } else {
        let bytes = encode_utf8(h);
        encode_utf8_first_scalar(h);
        assert(pop_first_scalar(bytes) =~= encode_utf8(h.drop_first()));
        assert(h.take(i)[0] == h[0]);
        assert(h.take(i).drop_first() =~= h.drop_first().take(i - 1));
        lemma_byte_offset_mono(h, i, h.len() as int);
        lemma_byte_offset_boundary(h.drop_first(), i - 1);
    }
}

/// The UTF-8 length of one character.
pub fn char_byte_len(c: char) -> (r: usize)
    ensures
        r == encode_utf8(seq![c]).len(),
{
    proof {
        char_is_scalar(c);
        assert(seq![c].drop_first() =~= Seq::<char>::empty());
        assert(encode_utf8(Seq::<char>::empty()) =~= Seq::<u8>::empty());
        assert(seq![c][0] == c);
        assert(encode_utf8(seq![c]) =~= encode_scalar(c as u32));
    }
    let u = c as u32;
    if u < 0x80 {
        1
    } else if u < 0x800 {
        2
    } else if u < 0x10000 {
        3
    } else {
        4
    }
}

proof fn lemma_byte_offset_step(h: Seq<char>, i: int)
    requires
        0 <= i < h.len(),
    ensures
        byte_offset(h, i + 1) == byte_offset(h, i) + encode_utf8(seq![h[i]]).len(),
{
    lemma_encode_concat(h.take(i), seq![h[i]]);
    assert(h.take(i) + seq![h[i]] =~= h.take(i + 1));
}

/// The end of the match of `lq` at character `i` of `v`, if there is one.
pub(crate) fn match_end_exec(v: &Vec<char>, lq: &Vec<char>, i: usize) -> (r: Option<usize>)
    requires
        i < v.len(),
    ensures
        match match_end(v@, lq@, i as int, i + 1) {
            Some(j) => r == Some(j as usize),
            None => r is None,
        },
{
    let mut j: usize = i + 1;
    loop
        invariant
            i < j <= v.len(),
            match_end(v@, lq@, i as int, i + 1) == match_end(v@, lq@, i as int, j as int),
        decreases v.len() - j,
    {
        if j - i > lq.len() {
            return None;
        }
        let part = string_of(v, i, j);
        let lowered = to_lowercase(part.as_str());
        if chars_equal_str(lq, 0, lq.len(), lowered.as_str()) {
            assert(lq@.subrange(0, lq.len() as int) =~= lq@);
            return Some(j);
        }
        assert(lq@.subrange(0, lq.len() as int) =~= lq@);
        assert(lowercase(v@.subrange(i as int, j as int)) != lq@);
        assert(match_end(v@, lq@, i as int, j as int) == match_end(v@, lq@, i as int, j + 1));
        if j == v.len() {
            assert(match_end(v@, lq@, i as int, j + 1) is None);
            return None;
        }
        j = j + 1;
    }
}

/// Case-insensitive search: the byte ranges of `haystack` whose text,
/// lower-cased, equals the lower-cased `query`, found left to right without
/// overlapping.  An empty query finds nothing.
#[verifier::spinoff_prover]
#[verifier::rlimit(40)]
pub fn find_all(haystack: &str, query: &str) -> (r: Vec<SearchMatch>)
    ensures
        r@ == find_all_spec(haystack@, query@),
{
    let ghost spans = find_spans(haystack@, query@);
    if query.unicode_len() == 0 {
        assert(find_all_spec(haystack@, query@) =~= Seq::<SearchMatch>::empty());
        return Vec::new();
    }
    let v = chars_of(haystack);
    let lowered_query = to_lowercase(query);
    let fq = chars_of(lowered_query.as_str());
    let total = haystack.as_bytes().len();
    proof {
        lemma_byte_offset_mono(v@, 0, v@.len() as int);
        assert(v@.take(0) =~= Seq::<char>::empty());
    }
    let mut out: Vec<SearchMatch> = Vec::new();
    let ghost mut done: Seq<(int, int)> = seq![];
    let mut i: usize = 0;
    let mut off: usize = 0;
    assert(done + ci_spans(v@, fq@, 0) =~= spans);
    while i < v.len()
        invariant
            i <= v.len(),
            v@ == haystack@,
            fq@ == lowercase(query@),
            total == encode_utf8(v@).len(),
            off == byte_offset(v@, i as int),
            spans == find_spans(haystack@, query@),
            done + ci_spans(v@, fq@, i as int) == spans,
            out@ == done.map_values(|sp: (int, int)| to_match(haystack@, sp)),
        decreases v.len() - i,
    {
        match match_end_exec(&v, &fq, i) {
            Some(j) => {
                proof {
                    lemma_match_end(v@, fq@, i as int, i + 1);
                    lemma_byte_offset_mono(v@, i as int, j as int);
                    lemma_byte_offset_mono(v@, j as int, v@.len() as int);
                }
                let mut e = off;
                let mut k = i;
                while k < j
                    invariant
                        i <= k <= j <= v.len(),
                        e == byte_offset(v@, k as int),
                        total == encode_utf8(v@).len(),
                    decreases j - k,
                {
                    proof {
                        lemma_byte_offset_step(v@, k as int);
                        lemma_byte_offset_mono(v@, k + 1, v@.len() as int);
                    }
                    e = e + char_byte_len(v[k]);
                    k = k + 1;
                }
                out.push(SearchMatch { start: off, end: e });
                proof {
                    assert(ci_spans(v@, fq@, i as int) == seq![(i as int, j as int)] + ci_spans(
                        v@,
                        fq@,
                        j as int,
                    ));
                    done = done.push((i as int, j as int));
                    assert(out@ =~= done.map_values(|sp: (int, int)| to_match(haystack@, sp)));
                }
                i = j;
                off = e;
            },
            None => {
                proof {
                    lemma_byte_offset_step(v@, i as int);
                    lemma_byte_offset_mono(v@, i + 1, v@.len() as int);
                }
                off = off + char_byte_len(v[i]);
                i = i + 1;
            },
        }
    }
    assert(done =~= spans);
    out
}

// ---------------------------------------------------------------------------
// Laws of the search
// ---------------------------------------------------------------------------

#[verifier::spinoff_prover]
#[verifier::rlimit(40)]
pub proof fn lemma_ci_spans_bounds(h: Seq<char>, fq: Seq<char>, i: int)
    requires
        0 <= i <= h.len(),
    ensures
        ({
            let sp = ci_spans(h, fq, i);
            &&& forall|a: int|
                0 <= a < sp.len() ==> i <= (#[trigger] sp[a]).0 < sp[a].1 <= h.len() && lowercase(
                    h.subrange(sp[a].0, sp[a].1),
                ) == fq
            &&& forall|a: int, b: int|
                0 <= a < b < sp.len() ==> (#[trigger] sp[a]).1 <= (#[trigger] sp[b]).0
            &&& forall|p: int, e: int|
                i <= p < e <= h.len() && e <= p + fq.len() && lowercase(#[trigger] h.subrange(p, e)) == fq ==> exists|a: int|
                    0 <= a < sp.len() && (#[trigger] sp[a]).0 <= p < sp[a].1
        }),
    decreases h.len() - i,
{
    if i < h.len() {
        lemma_match_end(h, fq, i, i + 1);
        match match_end(h, fq, i, i + 1) {
            Some(j) => {
                lemma_ci_spans_bounds(h, fq, j);
                let rest = ci_spans(h, fq, j);
                let sp = ci_spans(h, fq, i);
                assert(sp == seq![(i, j)] + rest);
                assert forall|a: int| 0 <= a < sp.len() implies i <= (#[trigger] sp[a]).0 < sp[a].1
                    <= h.len() && lowercase(h.subrange(sp[a].0, sp[a].1)) == fq by {
                    if a > 0 {
                        assert(sp[a] == rest[a - 1]);
                    }
                }
                assert forall|a: int, b: int| 0 <= a < b < sp.len() implies (#[trigger] sp[a]).1
                    <= (#[trigger] sp[b]).0 by {
                    assert(sp[b] == rest[b - 1]);
                    if a > 0 {
                        assert(sp[a] == rest[a - 1]);
                    }
                }
                assert forall|p: int, e: int|
                    i <= p < e <= h.len() && e <= p + fq.len() && lowercase(#[trigger] h.subrange(p, e)) == fq implies exists|
                    a: int,
                | 0 <= a < sp.len() && (#[trigger] sp[a]).0 <= p < sp[a].1 by {
                    if p < j {
                        assert(sp[0].0 <= p < sp[0].1);
                    } else {
                        let a = choose|a: int| 0 <= a < rest.len() && (#[trigger] rest[a]).0 <= p
                            < rest[a].1;
                        assert(sp[a + 1] == rest[a]);
                    }
                }
            },
            None => {
                lemma_ci_spans_bounds(h, fq, i + 1);
                let sp = ci_spans(h, fq, i);
                let rest = ci_spans(h, fq, i + 1);
                assert(sp == rest);
                assert forall|p: int, e: int|
                    i <= p < e <= h.len() && e <= p + fq.len() && lowercase(#[trigger] h.subrange(p, e)) == fq implies exists|
                    a: int,
                | 0 <= a < sp.len() && (#[trigger] sp[a]).0 <= p < sp[a].1 by {
                    if p == i {
                        assert(lowercase(h.subrange(i, e)) != fq);
                    } else {
                        let a = choose|a: int| 0 <= a < rest.len() && (#[trigger] rest[a]).0 <= p
                            < rest[a].1;
                        assert(sp[a] == rest[a]);
                    }
                }
            },
        }
    }
}

proof fn lemma_match_bytes(h: Seq<char>, sp: (int, int))
    requires
        0 <= sp.0 < sp.1 <= h.len(),
        encode_utf8(h).len() <= usize::MAX,
    ensures
        to_match(h, sp).start == byte_offset(h, sp.0),
        to_match(h, sp).end == byte_offset(h, sp.1),
        to_match(h, sp).start < to_match(h, sp).end <= encode_utf8(h).len(),
        is_char_boundary(encode_utf8(h), to_match(h, sp).start as int),
        is_char_boundary(encode_utf8(h), to_match(h, sp).end as int),
{
    lemma_byte_offset_mono(h, sp.0, sp.1);
    lemma_byte_offset_mono(h, sp.1, h.len() as int);
    lemma_byte_offset_boundary(h, sp.0);
    lemma_byte_offset_boundary(h, sp.1);
}

/// Search finds exactly the case-insensitive occurrences of the query, left
/// to right: each match is a range of the haystack's own characters (so its
/// byte range lies inside the haystack, on character boundaries) whose text,
/// lower-cased as a whole, equals the lower-cased query; matches do not
/// overlap; and every range whose lower-cased text equals the lower-cased
/// query, and that is no longer than it, starts at a match or inside one.
#[verifier::spinoff_prover]
#[verifier::rlimit(40)]
pub proof fn law_find_all_matches(haystack: Seq<char>, query: Seq<char>)
    requires
        query.len() > 0,
        encode_utf8(haystack).len() <= usize::MAX,
    ensures
        find_all_spec(haystack, query).len() == find_spans(haystack, query).len(),
        forall|a: int|
            0 <= a < find_spans(haystack, query).len() ==> {
                let sp = #[trigger] find_spans(haystack, query)[a];
                let m = find_all_spec(haystack, query)[a];
                &&& 0 <= sp.0 < sp.1 <= haystack.len()
                &&& lowercase(haystack.subrange(sp.0, sp.1)) == lowercase(query)
                &&& m.start == byte_offset(haystack, sp.0)
                &&& m.end == byte_offset(haystack, sp.1)
                &&& m.start < m.end <= encode_utf8(haystack).len()
                &&& is_char_boundary(encode_utf8(haystack), m.start as int)
                &&& is_char_boundary(encode_utf8(haystack), m.end as int)
            },
        forall|a: int, b: int|
            0 <= a < b < find_all_spec(haystack, query).len() ==> (#[trigger] find_all_spec(
                haystack,
                query,
            )[a]).end <= (#[trigger] find_all_spec(haystack, query)[b]).start,
        forall|p: int, e: int|
            0 <= p < e <= haystack.len() && e <= p + lowercase(query).len() && lowercase(
                #[trigger] haystack.subrange(p, e),
            ) == lowercase(query)
                ==> exists|a: int|
                0 <= a < find_spans(haystack, query).len() && (#[trigger] find_spans(
                    haystack,
                    query,
                )[a]).0 <= p < find_spans(haystack, query)[a].1,
{
    let fq = lowercase(query);
    lemma_ci_spans_bounds(haystack, fq, 0);
    let sp = find_spans(haystack, query);
    let ms = find_all_spec(haystack, query);
    assert(sp == ci_spans(haystack, fq, 0));
    assert forall|a: int| 0 <= a < sp.len() implies {
        let s = #[trigger] sp[a];
        let m = ms[a];
        &&& 0 <= s.0 < s.1 <= haystack.len()
        &&& lowercase(haystack.subrange(s.0, s.1)) == lowercase(query)
        &&& m.start == byte_offset(haystack, s.0)
        &&& m.end == byte_offset(haystack, s.1)
        &&& m.start < m.end <= encode_utf8(haystack).len()
        &&& is_char_boundary(encode_utf8(haystack), m.start as int)
        &&& is_char_boundary(encode_utf8(haystack), m.end as int)
    } by {
        lemma_match_bytes(haystack, sp[a]);
        assert(ms[a] == to_match(haystack, sp[a]));
    }
    assert forall|a: int, b: int| 0 <= a < b < ms.len() implies (#[trigger] ms[a]).end <= (
    #[trigger] ms[b]).start by {
        assert(sp[a].1 <= sp[b].0);
        lemma_match_bytes(haystack, sp[a]);
        lemma_match_bytes(haystack, sp[b]);
        lemma_byte_offset_mono(haystack, sp[a].1, sp[b].0);
        assert(ms[a] == to_match(haystack, sp[a]));
        assert(ms[b] == to_match(haystack, sp[b]));
    }
}

// ---------------------------------------------------------------------------
// Smart return
// ---------------------------------------------------------------------------

/// The first position `k' >= k` that is not white space.
pub open spec fn skip_ws(s: Seq<char>, k: int) -> int
    decreases s.len() - k,
{
    if k < 0 || k >= s.len() || !is_white_space(s[k]) {
        k
    } else {
        skip_ws(s, k + 1)
    }
}

/// The first position `k' >= k` that is not white space inside the line.
pub open spec fn skip_line_ws(s: Seq<char>, k: int) -> int
    decreases s.len() - k,
{
    if k < 0 || k >= s.len() || !is_white_space(s[k]) || s[k] == '\n' {
        k
    } else {
        skip_line_ws(s, k + 1)
    }
}

/// The first position `k' >= k` that is not a decimal digit (`\d`).
pub open spec fn skip_digits(s: Seq<char>, k: int) -> int
    decreases s.len() - k,
{
    if k < 0 || k >= s.len() || !class_contains(UnicodeClass::DecimalDigit, s[k]) {
        k
    } else {
        skip_digits(s, k + 1)
    }
}

/// The first position `k' >= k` that is not an ASCII digit.
pub open spec fn skip_ascii_digits(s: Seq<char>, k: int) -> int
    decreases s.len() - k,
{
    if k < 0 || k >= s.len() || !is_ascii_digit_char(s[k]) {
        k
    } else {
        skip_ascii_digits(s, k + 1)
    }
}

/// The first position `k' >= k` that is not `>`.
pub open spec fn skip_quote_marks(s: Seq<char>, k: int) -> int
    decreases s.len() - k,
{
    if k < 0 || k >= s.len() || s[k] != '>' {
        k
    } else {
        skip_quote_marks(s, k + 1)
    }
}

/// Whether the line starting at `k` opens or closes a code fence: after
/// its leading white space it starts with three backticks.
pub open spec fn opens_fence(s: Seq<char>, k: int) -> bool {
    let t = skip_line_ws(s, k);
    t + 3 <= s.len() && s[t] == '`' && s[t + 1] == '`' && s[t + 2] == '`'
}

/// The number of fence lines starting at or after position `k`.
pub open spec fn fences_from(s: Seq<char>, k: int) -> nat
    decreases s.len() - k,
{
    if k < 0 || k >= s.len() {
        0
    } else {
        (if (k == 0 || s[k - 1] == '\n') && opens_fence(s, k) {
            1nat
        } else {
            0nat
        }) + fences_from(s, k + 1)
    }
}

/// The end of a list marker that starts at `i0`: `-`, `+`, `*`, digits
/// followed by `.` or `)`, or a run of `>`.
pub open spec fn marker_end(s: Seq<char>, i0: int) -> Option<int> {
    if i0 < 0 || i0 >= s.len() {
        None
    } else if s[i0] == '-' || s[i0] == '+' || s[i0] == '*' {
        Some(i0 + 1)
    } else if class_contains(UnicodeClass::DecimalDigit, s[i0]) {
        let j = skip_digits(s, i0);
        if j < s.len() && (s[j] == '.' || s[j] == ')') {
            Some(j + 1)
        } else {
            None
        }
    } else if s[i0] == '>' {
        Some(skip_quote_marks(s, i0))
    } else {
        None
    }
}

/// A list item or quote line: indentation, marker, at least one white space
/// character, then the rest.  Gives the end of the indentation, the end of
/// the marker and the start of the rest.
pub open spec fn list_item(s: Seq<char>) -> Option<(int, int, int)> {
    let i0 = skip_ws(s, 0);
    match marker_end(s, i0) {
        Some(me) => {
            let k = skip_ws(s, me);
            if k > me {
                Some((i0, me, k))
            } else {
                None
            }
        },
        None => None,
    }
}

/// The value of a string of ASCII digits.
pub open spec fn digits_value(s: Seq<char>) -> nat
    decreases s.len(),
{
    if s.len() == 0 {
        0
    } else {
        digits_value(s.drop_last()) * 10 + ((s.last() as u32) - ('0' as u32)) as nat
    }
}

/// The marker for the next item: a number (ASCII digits that fit in a
/// `u32`, else 1) counts up, other markers repeat.
pub open spec fn next_marker(m: Seq<char>) -> Seq<char> {
    if m.len() > 0 && is_ascii_digit_char(m[0]) {
        let d = skip_ascii_digits(m, 0);
        let v = digits_value(m.take(d));
        let n: nat = if v <= u32::MAX {
            v
        } else {
            1
        };
        decimal(n + 1) + m.skip(d)
    } else {
        m
    }
}

/// Whether counting up the marker goes past `u32::MAX`.
pub open spec fn marker_overflows(m: Seq<char>) -> bool {
    m.len() > 0 && is_ascii_digit_char(m[0]) && digits_value(m.take(skip_ascii_digits(m, 0)))
        == u32::MAX
}

/// What Enter does at byte position `cursor`: the byte range to replace and
/// its replacement.  A soft break, or a return inside a code fence, inserts
/// a newline; on a list item the marker continues on the next line, and an
/// empty item ends the list; elsewhere a blank line follows.
pub open spec fn smart_return_spec(b: Seq<u8>, cursor: int, soft_break: bool) -> (
    int,
    int,
    Seq<char>,
) {
    if soft_break {
        (cursor, cursor, "\n"@)
    } else {
        let ls = line_start(b, cursor);
        let before = decode_utf8(b.subrange(0, cursor));
        let line = decode_utf8(b.subrange(ls, cursor));
        if fences_from(before, 0) % 2 == 1 {
            (cursor, cursor, "\n"@)
        } else {
            match list_item(line) {
                Some((i0, me, k)) => {
                    if k == line.len() {
                        (ls, cursor, "\n"@)
                    } else {
                        (
                            cursor,
                            cursor,
                            "\n"@ + line.subrange(0, i0) + next_marker(line.subrange(i0, me))
                                + " "@,
                        )
                    }
                },
                None => (cursor, cursor, "\n\n"@),
            }
        }
    }
}

/// Whether [`smart_return`] would count a list number past `u32::MAX`.
pub open spec fn smart_return_overflows(b: Seq<u8>, cursor: int, soft_break: bool) -> bool {
    !soft_break && {
        let ls = line_start(b, cursor);
        let before = decode_utf8(b.subrange(0, cursor));
        let line = decode_utf8(b.subrange(ls, cursor));
        fences_from(before, 0) % 2 == 0 && match list_item(line) {
            Some((i0, me, k)) => k < line.len() && marker_overflows(line.subrange(i0, me)),
            None => false,
        }
    }
}

fn skip_ws_exec(v: &Vec<char>, k: usize) -> (r: usize)
    requires
        k <= v.len(),
    ensures
        r == skip_ws(v@, k as int),
        k <= r <= v.len(),
{
    let mut i = k;
    while i < v.len() && is_whitespace(v[i])
        invariant
            k <= i <= v.len(),
            skip_ws(v@, k as int) == skip_ws(v@, i as int),
        decreases v.len() - i,
    {
        i = i + 1;
    }
    i
}

fn opens_fence_exec(v: &Vec<char>, k: usize) -> (r: bool)
    requires
        k <= v.len(),
    ensures
        r == opens_fence(v@, k as int),
{
    let mut t = k;
    while t < v.len() && is_whitespace(v[t]) && v[t] != '\n'
        invariant
            k <= t <= v.len(),
            skip_line_ws(v@, k as int) == skip_line_ws(v@, t as int),
        decreases v.len() - t,
    {
        t = t + 1;
    }
    v.len() - t >= 3 && v[t] == '`' && v[t + 1] == '`' && v[t + 2] == '`'
}

fn count_fences(v: &Vec<char>) -> (r: usize)
    ensures
        r == fences_from(v@, 0),
{
    let mut n: usize = 0;
    let mut k: usize = 0;
    while k < v.len()
        invariant
            k <= v.len(),
            n <= k,
            n + fences_from(v@, k as int) == fences_from(v@, 0),
        decreases v.len() - k,
    {
        if (k == 0 || v[k - 1] == '\n') && opens_fence_exec(v, k) {
            n = n + 1;
        }
        k = k + 1;
    }
    n
}

fn list_item_exec(v: &Vec<char>, digits: &CharClass) -> (r: Option<(usize, usize, usize)>)
    requires
        digits.class() == UnicodeClass::DecimalDigit,
    ensures
        r matches Some((a, m, c)) ==> list_item(v@) == Some((a as int, m as int, c as int)),
        r is None ==> list_item(v@) is None,
        r matches Some((a, m, c)) ==> a < m <= c <= v.len(),
{
    let i0 = skip_ws_exec(v, 0);
    if i0 >= v.len() {
        return None;
    }
    let c = v[i0];
    let me;
    if c == '-' || c == '+' || c == '*' {
        me = i0 + 1;
    } else if digits.contains(c) {
        let mut j = i0;
        while j < v.len() && digits.contains(v[j])
            invariant
                i0 <= j <= v.len(),
                skip_digits(v@, i0 as int) == skip_digits(v@, j as int),
                digits.class() == UnicodeClass::DecimalDigit,
            decreases v.len() - j,
        {
            j = j + 1;
        }
        if j < v.len() && (v[j] == '.' || v[j] == ')') {
            me = j + 1;
        } else {
            return None;
        }
    } else if c == '>' {
        let mut j = i0;
        while j < v.len() && v[j] == '>'
            invariant
                i0 <= j <= v.len(),
                skip_quote_marks(v@, i0 as int) == skip_quote_marks(v@, j as int),
            decreases v.len() - j,
        {
            j = j + 1;
        }
        me = j;
    } else {
        return None;
    }
    assert(marker_end(v@, i0 as int) == Some(me as int));
    let k = skip_ws_exec(v, me);
    if k > me {
        Some((i0, me, k))
    } else {
        None
    }
}

pub proof fn lemma_digits_value_grows(s: Seq<char>, k: int)
    requires
        0 <= k <= s.len(),
    ensures
        digits_value(s.take(k)) <= digits_value(s),
    decreases s.len() - k,
{
    if k < s.len() {
        lemma_digits_value_grows(s, k + 1);
        assert(s.take(k + 1).drop_last() =~= s.take(k));
    } else {
        assert(s.take(k) =~= s);
    }
}

/// The value of the ASCII digits `v[lo..hi]`, or `None` beyond `u32::MAX`.
fn parse_digits(v: &Vec<char>, lo: usize, hi: usize) -> (r: Option<u32>)
    requires
        lo <= hi <= v.len(),
        forall|k: int| lo <= k < hi ==> is_ascii_digit_char(#[trigger] v@[k]),
    ensures
        match r {
            Some(n) => n as nat == digits_value(v@.subrange(lo as int, hi as int)),
            None => digits_value(v@.subrange(lo as int, hi as int)) > u32::MAX,
        },
{
    let ghost s = v@.subrange(lo as int, hi as int);
    let mut value: u64 = 0;
    let mut i = lo;
    assert(s.take(0) =~= Seq::<char>::empty());
    while i < hi
        invariant
            lo <= i <= hi <= v.len(),
            s == v@.subrange(lo as int, hi as int),
            forall|k: int| lo <= k < hi ==> is_ascii_digit_char(#[trigger] v@[k]),
            value as nat == digits_value(s.take(i - lo)),
            value <= u32::MAX,
        decreases hi - i,
    {
        let d = (v[i] as u32) - ('0' as u32);
        assert(s.take(i - lo + 1).drop_last() =~= s.take(i - lo));
        assert(s.take(i - lo + 1).last() == v@[i as int]);
        value = value * 10 + (d as u64);
        if value > 0xffff_ffff {
            proof {
                lemma_digits_value_grows(s, i - lo + 1);
            }
            return None;
        }
        i = i + 1;
    }
    assert(s.take(i - lo) =~= s);
    Some(value as u32)
}

/// Appends the marker of the next item for the marker `v[i0..me]`.
fn push_next_marker(out: &mut String, v: &Vec<char>, i0: usize, me: usize)
    requires
        i0 < me <= v.len(),
        !marker_overflows(v@.subrange(i0 as int, me as int)),
    ensures
        final(out)@ == old(out)@ + next_marker(v@.subrange(i0 as int, me as int)),
{
    let ghost m = v@.subrange(i0 as int, me as int);
    if is_ascii_digit(v[i0]) {
        let mut d = i0;
        while d < me && is_ascii_digit(v[d])
            invariant
                i0 <= d <= me <= v.len(),
                m == v@.subrange(i0 as int, me as int),
                skip_ascii_digits(m, 0) == skip_ascii_digits(m, d - i0),
                forall|k: int| i0 <= k < d ==> is_ascii_digit_char(#[trigger] v@[k]),
            decreases me - d,
        {
            d = d + 1;
        }
        assert(m.take(d - i0) =~= v@.subrange(i0 as int, d as int));
        let n: u64 = match parse_digits(v, i0, d) {
            Some(n) => n as u64,
            None => 1,
        };
        push_decimal(out, n + 1);
        push_chars(out, v, d, me);
        assert(m.skip(d - i0) =~= v@.subrange(d as int, me as int));
    } else {
        push_chars(out, v, i0, me);
    }
}

/// Enter in the editor at byte position `cursor`: the byte range to replace
/// and the text to put there.  With `soft_break` (Shift+Enter), or inside a
/// code fence, a plain newline; on a list or quote line the marker continues
/// (numbers count up), and an empty item ends the list; elsewhere a blank
/// line.
pub fn smart_return(text: &str, cursor: usize, soft_break: bool) -> (r: (usize, usize, String))
    requires
        soft_break || (cursor <= text.spec_bytes().len() && is_char_boundary(
            text.spec_bytes(),
            cursor as int,
        )),
        !smart_return_overflows(text.spec_bytes(), cursor as int, soft_break),
    ensures
        ({
            let s = smart_return_spec(text.spec_bytes(), cursor as int, soft_break);
            r.0 == s.0 && r.1 == s.1 && r.2@ == s.2
        }),
{
    match try_smart_return(text, cursor, soft_break) {
        Some(t) => t,
        None => {
            assert(false);
            (cursor, cursor, String::new())
        },
    }
}

/// Whether the marker `v[i0..me]` would count past `u32::MAX`.
fn marker_overflows_exec(v: &Vec<char>, i0: usize, me: usize) -> (r: bool)
    requires
        i0 < me <= v.len(),
    ensures
        r == marker_overflows(v@.subrange(i0 as int, me as int)),
{
    let ghost m = v@.subrange(i0 as int, me as int);
    if !is_ascii_digit(v[i0]) {
        return false;
    }
    let mut d = i0;
    while d < me && is_ascii_digit(v[d])
        invariant
            i0 <= d <= me <= v.len(),
            m == v@.subrange(i0 as int, me as int),
            skip_ascii_digits(m, 0) == skip_ascii_digits(m, d - i0),
            forall|k: int| i0 <= k < d ==> is_ascii_digit_char(#[trigger] v@[k]),
        decreases me - d,
    {
        d = d + 1;
    }
    assert(m.take(d - i0) =~= v@.subrange(i0 as int, d as int));
    match parse_digits(v, i0, d) {
        Some(n) => n == 0xffff_ffff,
        None => false,
    }
}

/// [`smart_return`] where it is defined: `None` where `cursor` is not a
/// character boundary of `text` or a list number would count past
/// `u32::MAX`.
#[verifier::spinoff_prover]
#[verifier::rlimit(40)]
pub fn try_smart_return(text: &str, cursor: usize, soft_break: bool) -> (r: Option<
    (usize, usize, String),
>)
    ensures
        match r {
            Some(t) => {
                let s = smart_return_spec(text.spec_bytes(), cursor as int, soft_break);
                t.0 == s.0 && t.1 == s.1 && t.2@ == s.2
            },
            None => !soft_break && (cursor > text.spec_bytes().len() || !is_char_boundary(
                text.spec_bytes(),
                cursor as int,
            ) || smart_return_overflows(text.spec_bytes(), cursor as int, soft_break)),
        },
{
    if soft_break {
        return Some((cursor, cursor, string_from("\n")));
    }
    let b = text.as_bytes();
    if cursor > b.len() || !text.is_char_boundary(cursor) {
        return None;
    }
    let ls = line_start_exec(b, cursor);
    proof {
        encode_utf8_valid_utf8(text@);
        lemma_line_boundaries(b@, cursor as int);
        is_char_boundary_start_end_of_seq(b@);
    }
    let before = slice_between(text, 0, cursor);
    let line = slice_between(text, ls, cursor);
    proof {
        encode_utf8_decode_utf8(before@);
        encode_utf8_decode_utf8(line@);
    }
    let bc = chars_of(before);
    assert(b@ == text.spec_bytes());
    assert(before.spec_bytes() == encode_utf8(before@));
    assert(decode_utf8(b@.subrange(0, cursor as int)) == bc@);
    if count_fences(&bc) % 2 == 1 {
        return Some((cursor, cursor, string_from("\n")));
    }
    let lc = chars_of(line);
    assert(line.spec_bytes() == encode_utf8(line@));
    assert(decode_utf8(b@.subrange(ls as int, cursor as int)) == lc@);
    let digits = CharClass::decimal_digits();
    let ghost sp = smart_return_spec(text.spec_bytes(), cursor as int, soft_break);
    assert(fences_from(decode_utf8(b@.subrange(0, cursor as int)), 0) % 2 == 0);
    match list_item_exec(&lc, &digits) {
        Some((i0, me, k)) => {
            assert(list_item(lc@) == Some((i0 as int, me as int, k as int)));
            if k == lc.len() {
                assert(sp == (ls as int, cursor as int, "\n"@));
                Some((ls, cursor, string_from("\n")))
            } else {
                if marker_overflows_exec(&lc, i0, me) {
                    return None;
                }
                let mut out = string_from("\n");
                push_chars(&mut out, &lc, 0, i0);
                push_next_marker(&mut out, &lc, i0, me);
                push_str(&mut out, " ");
                Some((cursor, cursor, out))
            }
        },
        None => {
            assert(sp == (cursor as int, cursor as int, "\n\n"@));
            Some((cursor, cursor, string_from("\n\n")))
        },
    }
}

// ---------------------------------------------------------------------------
// Plain text
// ---------------------------------------------------------------------------

/// `s` with every `\r\n` and every remaining `\r` turned into `\n`.
pub open spec fn normalize_newlines(s: Seq<char>) -> Seq<char>
    decreases s.len(),
{
    if s.len() == 0 {
        seq![]
    } else if s[0] == '\r' && s.len() > 1 && s[1] == '\n' {
        seq!['\n'] + normalize_newlines(s.skip(2))
    } else if s[0] == '\r' {
        seq!['\n'] + normalize_newlines(s.skip(1))
    } else {
        seq![s[0]] + normalize_newlines(s.skip(1))
    }
}

/// Text as the editor keeps it: Windows (`\r\n`) and old Mac (`\r`) line
/// endings become `\n`.
pub fn normalize_plain_text(text: &str) -> (r: String)
    ensures
        r@ == normalize_newlines(text@),
{
    let v = chars_of(text);
    let mut out = String::new();
    let mut i: usize = 0;
    assert(v@.skip(0) =~= v@);
    assert(out@ + normalize_newlines(v@) =~= normalize_newlines(v@));
    while i < v.len()
        invariant
            i <= v.len(),
            out@ + normalize_newlines(v@.skip(i as int)) == normalize_newlines(v@),
        decreases v.len() - i,
    {
        let ghost before = out@;
        let ghost rest = v@.skip(i as int);
        if v[i] == '\r' && i + 1 < v.len() && v[i + 1] == '\n' {
            push_char(&mut out, '\n');
            assert(rest.skip(2) =~= v@.skip(i + 2));
            assert(out@ + normalize_newlines(v@.skip(i + 2)) =~= before + normalize_newlines(rest));
            i = i + 2;
        } else {
            if v[i] == '\r' {
                push_char(&mut out, '\n');
            } else {
                push_char(&mut out, v[i]);
            }
            assert(rest.skip(1) =~= v@.skip(i + 1));
            assert(out@ + normalize_newlines(v@.skip(i + 1)) =~= before + normalize_newlines(rest));
            i = i + 1;
        }
    }
    assert(normalize_newlines(v@.skip(i as int)) =~= Seq::<char>::empty());
    assert(out@ =~= normalize_newlines(v@));
    out
}

/// Normalized text holds no carriage return.
pub proof fn lemma_normalized_has_no_cr(s: Seq<char>)
    ensures
        !normalize_newlines(s).contains('\r'),
    decreases s.len(),
{
    if s.len() == 0 {
    } else if s[0] == '\r' && s.len() > 1 && s[1] == '\n' {
        lemma_normalized_has_no_cr(s.skip(2));
        assert(!seq!['\n'].contains('\r'));
        assert forall|k: int| 0 <= k < normalize_newlines(s).len() implies normalize_newlines(s)[k]
            != '\r' by {
            if k > 0 {
                assert(normalize_newlines(s)[k] == normalize_newlines(s.skip(2))[k - 1]);
            }
        }
    } else {
        lemma_normalized_has_no_cr(s.skip(1));
        assert forall|k: int| 0 <= k < normalize_newlines(s).len() implies normalize_newlines(s)[k]
            != '\r' by {
            if k > 0 {
                assert(normalize_newlines(s)[k] == normalize_newlines(s.skip(1))[k - 1]);
            }
        }
    }
}

/// Text without carriage returns is already normalized.
pub proof fn lemma_normalize_without_cr(s: Seq<char>)
    requires
        !s.contains('\r'),
    ensures
        normalize_newlines(s) == s,
    decreases s.len(),
{
    if s.len() == 0 {
    } else {
        assert(s[0] != '\r');
        assert(!s.skip(1).contains('\r')) by {
            if s.skip(1).contains('\r') {
                let k = choose|k: int| 0 <= k < s.skip(1).len() && s.skip(1)[k] == '\r';
                assert(s[k + 1] == '\r');
            }
        }
        lemma_normalize_without_cr(s.skip(1));
        assert(seq![s[0]] + s.skip(1) =~= s);
    }
}

/// Normalizing line endings twice changes nothing more than normalizing
/// once, and leaves no carriage return behind.
pub proof fn law_normalize_idempotent(s: Seq<char>)
    ensures
        normalize_newlines(normalize_newlines(s)) == normalize_newlines(s),
        !normalize_newlines(s).contains('\r'),
{
    lemma_normalized_has_no_cr(s);
    lemma_normalize_without_cr(normalize_newlines(s));
}

/// `before`, the selection, then `after` (Ctrl+B, Ctrl+I).
pub fn wrap_selection(selected: &str, before: &str, after: &str) -> (r: String)
    ensures
        r@ == before@ + selected@ + after@,
{
    let mut out = String::new();
    push_str(&mut out, before);
    push_str(&mut out, selected);
    push_str(&mut out, after);
    assert(out@ =~= before@ + selected@ + after@);
    out
}

// ---------------------------------------------------------------------------
// Laws
// ---------------------------------------------------------------------------

proof fn lemma_marker_ranges_bounds(ms: Seq<MarkupModel>, off: int, n: int)
    requires
        markers_within(ms, n),
        0 <= off,
        off + n <= usize::MAX,
    ensures
        forall|i: int|
            0 <= i < marker_ranges(ms, off).len() ==> off <= (#[trigger] marker_ranges(ms, off)[i]).0
                < marker_ranges(ms, off)[i].1 <= off + n,
    decreases ms.len(),
{
    if ms.len() > 0 {
        let init = ms.drop_last();
        assert forall|k: int, j: int|
            0 <= k < init.len() && 0 <= j < init[k].2.len() implies 1 <= #[trigger] init[k].2[j].length
            && init[k].2[j].start + init[k].2[j].length <= n by {
            assert(init[k] == ms[k]);
        }
        lemma_marker_ranges_bounds(init, off, n);
        let head = marker_ranges(init, off);
        let last = ms.last().2;
        let tail = ranges_of(last, off);
        let mr = marker_ranges(ms, off);
        assert(mr == head + tail);
        assert forall|i: int| 0 <= i < mr.len() implies off <= (#[trigger] mr[i]).0 < mr[i].1
            <= off + n by {
            if i >= head.len() {
                let j = i - head.len();
                assert(mr[i] == tail[j]);
                assert(ms[ms.len() - 1].2[j] == last[j]);
            } else {
                assert(mr[i] == head[i]);
            }
        }
    }
}

/// The hidden ranges for a position are exactly the ranges of the Markdown
/// markers on the line that holds it (each reported once), sorted, and
/// each lies inside that line.
#[verifier::spinoff_prover]
#[verifier::rlimit(40)]
pub proof fn law_hidden_ranges(b: Seq<u8>, position: int)
    requires
        b.len() <= usize::MAX,
        0 <= position,
    ensures
        ({
            let p = if position < b.len() {
                position
            } else {
                b.len() as int
            };
            let s = line_start(b, p);
            let e = line_end(b, s);
            let all = marker_ranges(inline_markup_spec(b.subrange(s, e)), s);
            let r = hidden_ranges_spec(b, position);
            &&& sorted_by(r, pair_order())
            &&& r.to_multiset() == all.to_multiset()
            &&& r.len() == all.len()
            &&& forall|i: int| 0 <= i < r.len() ==> s <= (#[trigger] r[i]).0 < r[i].1 <= e
        }),
{
    lemma_pair_order_total();
    let p = if position < b.len() {
        position
    } else {
        b.len() as int
    };
    lemma_last_byte_before(b, NEWLINE, p);
    let s = line_start(b, p);
    lemma_find_byte_bounds(b, NEWLINE, s);
    let e = line_end(b, s);
    let line = b.subrange(s, e);
    lemma_inline_markup_within(line);
    let all = marker_ranges(inline_markup_spec(line), s);
    lemma_marker_ranges_bounds(inline_markup_spec(line), s, e - s);
    all.lemma_sort_by_ensures(pair_order());
    let r = hidden_ranges_spec(b, position);
    assert(r == all.sort_by(pair_order()));
    all.to_multiset_ensures();
    r.to_multiset_ensures();
    assert forall|i: int| 0 <= i < r.len() implies s <= (#[trigger] r[i]).0 < r[i].1 <= e by {
        assert(r.contains(r[i]));
        assert(all.contains(r[i]));
        let k = choose|k: int| 0 <= k < all.len() && all[k] == r[i];
        assert(all[k] == r[i]);
    }
}


// ---------------------------------------------------------------------------
// Laws of smart return
// ---------------------------------------------------------------------------

proof fn lemma_no_byte_before(b: Seq<u8>, x: u8, p: int)
    requires
        0 <= p <= b.len(),
        forall|q: int| 0 <= q < b.len() ==> #[trigger] b[q] != x,
    ensures
        last_byte_before(b, x, p) == -1,
    decreases p,
{
    if p > 0 {
        lemma_no_byte_before(b, x, p - 1);
    }
}

proof fn lemma_skip_ws_run(s: Seq<char>, k: int, n: int)
    requires
        0 <= k <= n <= s.len(),
        forall|q: int| k <= q < n ==> is_white_space(#[trigger] s[q]),
        n < s.len() ==> !is_white_space(s[n]),
    ensures
        skip_ws(s, k) == n,
    decreases n - k,
{
    if k < n {
        lemma_skip_ws_run(s, k + 1, n);
    }
}

proof fn lemma_skip_line_ws_run(s: Seq<char>, k: int, n: int)
    requires
        0 <= k <= n <= s.len(),
        forall|q: int| k <= q < n ==> is_white_space(#[trigger] s[q]) && s[q] != '\n',
        n < s.len() ==> !is_white_space(s[n]),
    ensures
        skip_line_ws(s, k) == n,
    decreases n - k,
{
    if k < n {
        lemma_skip_line_ws_run(s, k + 1, n);
    }
}

proof fn lemma_no_fences_after_start(s: Seq<char>, k: int)
    requires
        1 <= k,
        forall|q: int| 0 <= q < s.len() ==> #[trigger] s[q] != '\n',
    ensures
        fences_from(s, k) == 0,
    decreases s.len() - k,
{
    if k < s.len() {
        assert(s[k - 1] != '\n');
        lemma_no_fences_after_start(s, k + 1);
    }
}

/// Enter at the end of a bullet item (indentation of spaces or tabs, `-`,
/// `+` or `*`, a space, then some text) continues the list: a newline, the
/// same indentation and bullet, and a space are inserted at the cursor.
pub proof fn law_bullet_item_continues(indent: Seq<char>, bullet: char, text: Seq<char>)
    requires
        bullet == '-' || bullet == '+' || bullet == '*',
        forall|q: int| 0 <= q < indent.len() ==> #[trigger] indent[q] == ' ' || indent[q] == '\t',
        text.len() > 0,
        !is_white_space(text[0]),
        is_ascii_chars(text),
        !text.contains('\n'),
    ensures
        ({
            let s = indent + seq![bullet, ' '] + text;
            let b = encode_utf8(s);
            smart_return_spec(b, b.len() as int, false) == (
                b.len() as int,
                b.len() as int,
                seq!['\n'] + indent + seq![bullet, ' '],
            )
        }),
{
    let s = indent + seq![bullet, ' '] + text;
    let n = indent.len() as int;
    assert forall|q: int| 0 <= q < s.len() implies '\0' <= #[trigger] s[q] <= '\u{7f}' && s[q]
        != '\n' by {
        if q < n {
            assert(s[q] == indent[q]);
        } else if q == n {
            assert(s[q] == bullet);
        } else if q == n + 1 {
            assert(s[q] == ' ');
        } else {
            assert(s[q] == text[q - n - 2]);
            assert(text.contains(text[q - n - 2]));
        }
    }
    assert(is_ascii_chars(s));
    is_ascii_chars_encode_utf8(s);
    let b = encode_utf8(s);
    let cursor = b.len() as int;
    assert forall|q: int| 0 <= q < b.len() implies #[trigger] b[q] != NEWLINE by {
        assert(s[q] as u8 == b[q]);
        assert(s[q] != '\n');
    }
    lemma_no_byte_before(b, NEWLINE, cursor);
    assert(line_start(b, cursor) == 0);
    assert(b.subrange(0, cursor) =~= b);
    encode_utf8_decode_utf8(s);
    assert(decode_utf8(b.subrange(0, cursor)) == s);
    assert(decode_utf8(b.subrange(line_start(b, cursor), cursor)) == s);
    // No code fence: the only line starts with the bullet.
    assert forall|q: int| 0 <= q < s.len() implies #[trigger] s[q] != '\n' by {}
    lemma_no_fences_after_start(s, 1);
    assert forall|q: int| 0 <= q < n implies is_white_space(#[trigger] s[q]) && s[q] != '\n' by {
        assert(s[q] == indent[q]);
    }
    assert(s[n] == bullet);
    lemma_skip_line_ws_run(s, 0, n);
    assert(!opens_fence(s, 0));
    assert(fences_from(s, 0) == 0);
    // The line is a list item.
    lemma_skip_ws_run(s, 0, n);
    assert(marker_end(s, n) == Some(n + 1));
    assert(s[n + 1] == ' ');
    assert(s[n + 2] == text[0]);
    assert forall|q: int| n + 1 <= q < n + 2 implies is_white_space(#[trigger] s[q]) by {}
    lemma_skip_ws_run(s, n + 1, n + 2);
    assert(list_item(s) == Some((n, n + 1, n + 2)));
    assert(s.subrange(0, n) =~= indent);
    assert(s.subrange(n, n + 1) =~= seq![bullet]);
    assert(next_marker(seq![bullet]) == seq![bullet]);
    reveal_strlit("\n");
    reveal_strlit(" ");
    assert(seq!['\n'] + indent + seq![bullet, ' '] =~= "\n"@ + s.subrange(0, n) + next_marker(
        s.subrange(n, n + 1),
    ) + " "@);
}

} // verus!

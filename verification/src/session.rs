//! Decisions of the editor window: the word-count label, what to do when the
//! open file changes on disk, stepping through and replacing search results,
//! the print status, what a new window shows, when periodic work is due, and
//! what waits while unsaved changes are asked about.

use vstd::prelude::*;
use vstd::string::StringSliceAdditionalSpecFns;
use vstd::utf8::*;

use crate::markdown::{
    ci_spans, find_spans, lemma_match_end, lowercase, match_end, match_end_exec, to_lowercase,
    SearchMatch,
};
use crate::recovery::RecoverySnapshot;
use crate::text::{chars_of, decimal, push_char, push_decimal, push_str, string_from};

verus! {

broadcast use vstd::string::group_string_axioms;

/// The status-bar word count: `1 Word`, otherwise `n Words`.
pub open spec fn word_label_spec(count: nat) -> Seq<char> {
    if count == 1 {
        "1 Word"@
    } else {
        decimal(count) + " Words"@
    }
}

pub fn word_label(count: usize) -> (r: String)
    ensures
        r@ == word_label_spec(count as nat),
{
    if count == 1 {
        string_from("1 Word")
    } else {
        let mut s = String::new();
        push_decimal(&mut s, count as u64);
        push_str(&mut s, " Words");
        assert(s@ =~= decimal(count as nat) + " Words"@);
        s
    }
}

/// What to do when the file watcher reports the open file.
#[derive(Debug, Clone, Copy, PartialEq, Eq, Structural)]
pub enum ExternalChange {
    /// The file on disk is what the document last read or wrote: watch it
    /// again and carry on.
    Rewatch,
    /// Ask whether to reload the file or keep the local version.
    Ask,
}

/// A reported change is only a question when the file is gone or differs
/// from what the document knows of it.
pub fn external_change_action(deleted: bool, matches_disk: bool) -> (r: ExternalChange)
    ensures
        r == (if !deleted && matches_disk {
            ExternalChange::Rewatch
        } else {
            ExternalChange::Ask
        }),
{
    if !deleted && matches_disk {
        ExternalChange::Rewatch
    } else {
        ExternalChange::Ask
    }
}

/// The question shown when the file changed on disk.
pub open spec fn external_change_message_spec(deleted: bool, locally_modified: bool) -> Seq<
    char,
> {
    if deleted {
        "This file was deleted on disk."@
    } else if locally_modified {
        "This file changed on disk and you have unsaved edits."@
    } else {
        "This file changed on disk."@
    }
}

pub fn external_change_message(deleted: bool, locally_modified: bool) -> (r: String)
    ensures
        r@ == external_change_message_spec(deleted, locally_modified),
{
    if deleted {
        string_from("This file was deleted on disk.")
    } else if locally_modified {
        string_from("This file changed on disk and you have unsaved edits.")
    } else {
        string_from("This file changed on disk.")
    }
}

/// The search result after moving `direction` steps from `index`, wrapping
/// around the `len` results.
pub fn next_search_index(index: isize, direction: isize, len: usize) -> (r: isize)
    requires
        len > 0,
        len <= isize::MAX,
        isize::MIN <= index + direction <= isize::MAX,
    ensures
        r == (index + direction) % (len as int),
        0 <= r < len,
{
    let m = len as isize;
    let s = index + direction;
    match s.checked_rem_euclid(m) {
        Some(r) => r,
        None => 0,
    }
}

/// The search bar's position label: `i / n` for the current result of `n`
/// (counting from one, and showing the first while none is selected), or
/// nothing when there are no results.
pub open spec fn search_count_spec(index: int, len: nat) -> Seq<char> {
    if len == 0 {
        seq![]
    } else {
        decimal(
            (if index > 0 {
                index
            } else {
                0
            } + 1) as nat,
        ) + " / "@ + decimal(len)
    }
}

pub fn search_count_label(index: isize, len: usize) -> (r: String)
    requires
        len == 0 || index < isize::MAX,
    ensures
        r@ == search_count_spec(index as int, len as nat),
{
    if len == 0 {
        return String::new();
    }
    let shown: isize = if index > 0 {
        index
    } else {
        0
    };
    let mut s = String::new();
    push_decimal(&mut s, (shown + 1) as u64);
    push_str(&mut s, " / ");
    push_decimal(&mut s, len as u64);
    s
}

// ---------------------------------------------------------------------------
// Replace all
// ---------------------------------------------------------------------------

/// The characters of `h` from `i` on, with each match of the lower-cased
/// query `fq` (found as [`find_all`] finds them) replaced by `rep`.
pub open spec fn replace_from(h: Seq<char>, fq: Seq<char>, rep: Seq<char>, i: int) -> Seq<char>
    decreases h.len() - i,
{
    if i < 0 || i >= h.len() {
        seq![]
    } else {
        match match_end(h, fq, i, i + 1) {
            Some(j) => {
                proof {
                    lemma_match_end(h, fq, i, i + 1);
                }
                rep + replace_from(h, fq, rep, j)
            },
            None => seq![h[i]] + replace_from(h, fq, rep, i + 1),
        }
    }
}

/// Replace all: `haystack` with every case-insensitive match of `query`
/// replaced by `rep`; an empty query changes nothing.
pub open spec fn replace_all_spec(haystack: Seq<char>, query: Seq<char>, rep: Seq<char>) -> Seq<
    char,
> {
    if query.len() == 0 {
        haystack
    } else {
        replace_from(haystack, lowercase(query), rep, 0)
    }
}

/// The sub-slice of `text` between two character boundaries.
fn slice_of(text: &str, a: usize, e: usize) -> (r: &str)
    requires
        a <= e <= text.spec_bytes().len(),
        is_char_boundary(text.spec_bytes(), a as int),
        is_char_boundary(text.spec_bytes(), e as int),
    ensures
        r@ == decode_utf8(text.spec_bytes().subrange(a as int, e as int)),
{
    let r = crate::markdown::slice_between(text, a, e);
    proof {
        encode_utf8_decode_utf8(r@);
    }
    r
}

/// Replacing the current search result: the text with bytes
/// `m.start..m.end` replaced by `rep`, or `None` when the match reaches past
/// the end of the text (it is then left alone).
pub open spec fn replace_match_spec(b: Seq<u8>, m: SearchMatch, rep: Seq<char>) -> Option<
    Seq<char>,
> {
    if m.end > b.len() {
        None
    } else {
        Some(
            decode_utf8(b.subrange(0, m.start as int)) + rep + decode_utf8(
                b.subrange(m.end as int, b.len() as int),
            ),
        )
    }
}

/// Replaces the search result `m` of `text` by `replacement`.  A match that
/// ends inside the text must start no later than it ends and cut the text
/// at character boundaries.
pub fn replace_match(text: &str, m: SearchMatch, replacement: &str) -> (r: Option<String>)
    requires
        m.end <= text.spec_bytes().len() ==> m.start <= m.end && is_char_boundary(
            text.spec_bytes(),
            m.start as int,
        ) && is_char_boundary(text.spec_bytes(), m.end as int),
    ensures
        match replace_match_spec(text.spec_bytes(), m, replacement@) {
            Some(t) => r matches Some(s) && s@ == t,
            None => r is None,
        },
{
    let n = text.as_bytes().len();
    if m.end > n {
        return None;
    }
    proof {
        encode_utf8_valid_utf8(text@);
        is_char_boundary_start_end_of_seq(text.spec_bytes());
    }
    let mut out = String::new();
    push_str(&mut out, slice_of(text, 0, m.start));
    push_str(&mut out, replacement);
    push_str(&mut out, slice_of(text, m.end, n));
    Some(out)
}

/// Replaces every case-insensitive match of `query` in `haystack` by
/// `replacement`.
#[verifier::spinoff_prover]
#[verifier::rlimit(40)]
pub fn replace_all_ci(haystack: &str, query: &str, replacement: &str) -> (r: String)
    ensures
        r@ == replace_all_spec(haystack@, query@, replacement@),
{
    if query.unicode_len() == 0 {
        return string_from(haystack);
    }
    let v = chars_of(haystack);
    let lowered_query = to_lowercase(query);
    let fq = chars_of(lowered_query.as_str());
    let ghost whole = replace_from(v@, fq@, replacement@, 0);
    let mut out = String::new();
    let mut i: usize = 0;
    assert(out@ + whole =~= whole);
    while i < v.len()
        invariant
            i <= v.len(),
            whole == replace_from(v@, fq@, replacement@, 0),
            out@ + replace_from(v@, fq@, replacement@, i as int) == whole,
        decreases v.len() - i,
    {
        let ghost before = out@;
        match match_end_exec(&v, &fq, i) {
            Some(j) => {
                proof {
                    lemma_match_end(v@, fq@, i as int, i + 1);
                }
                push_str(&mut out, replacement);
                assert(before + replace_from(v@, fq@, replacement@, i as int) =~= out@
                    + replace_from(v@, fq@, replacement@, j as int));
                i = j;
            },
            None => {
                push_char(&mut out, v[i]);
                assert(before + replace_from(v@, fq@, replacement@, i as int) =~= out@
                    + replace_from(v@, fq@, replacement@, i + 1));
                i = i + 1;
            },
        }
    }
    assert(out@ =~= whole);
    out
}

/// `h` from character `last` on, with the character ranges `sp` replaced
/// by `rep`.
pub open spec fn splice_spans(h: Seq<char>, sp: Seq<(int, int)>, rep: Seq<char>, last: int) -> Seq<
    char,
>
    decreases sp.len(),
{
    if sp.len() == 0 {
        h.subrange(last, h.len() as int)
    } else {
        h.subrange(last, sp[0].0) + rep + splice_spans(h, sp.drop_first(), rep, sp[0].1)
    }
}

#[verifier::spinoff_prover]
#[verifier::rlimit(40)]
proof fn lemma_replace_from_splices(h: Seq<char>, fq: Seq<char>, rep: Seq<char>, i: int)
    requires
        0 <= i <= h.len(),
    ensures
        replace_from(h, fq, rep, i) == splice_spans(h, ci_spans(h, fq, i), rep, i),
    decreases h.len() - i,
{
    crate::markdown::lemma_ci_spans_bounds(h, fq, i);
    if i == h.len() {
        assert(h.subrange(i, i) =~= Seq::<char>::empty());
    } else {
        lemma_match_end(h, fq, i, i + 1);
        match match_end(h, fq, i, i + 1) {
            Some(j) => {
                lemma_replace_from_splices(h, fq, rep, j);
                let sp = ci_spans(h, fq, i);
                assert(sp.drop_first() =~= ci_spans(h, fq, j));
                assert(h.subrange(i, i) =~= Seq::<char>::empty());
                assert(splice_spans(h, sp, rep, i) =~= rep + splice_spans(
                    h,
                    ci_spans(h, fq, j),
                    rep,
                    j,
                ));
            },
            None => {
                lemma_replace_from_splices(h, fq, rep, i + 1);
                crate::markdown::lemma_ci_spans_bounds(h, fq, i + 1);
                let sp = ci_spans(h, fq, i + 1);
                if sp.len() == 0 {
                    assert(h.subrange(i, h.len() as int) =~= seq![h[i]] + h.subrange(
                        i + 1,
                        h.len() as int,
                    ));
                } else {
                    assert(h.subrange(i, sp[0].0) =~= seq![h[i]] + h.subrange(i + 1, sp[0].0));
                    assert(splice_spans(h, sp, rep, i) =~= seq![h[i]] + splice_spans(
                        h,
                        sp,
                        rep,
                        i + 1,
                    ));
                }
            },
        }
    }
}

/// Replace all replaces exactly what search finds: the text between the
/// matches that [`find_all`] reports is kept, and each match is replaced.
pub proof fn law_replace_all_replaces_matches(haystack: Seq<char>, query: Seq<char>, rep: Seq<char>)
    requires
        query.len() > 0,
    ensures
        replace_all_spec(haystack, query, rep) == splice_spans(
            haystack,
            find_spans(haystack, query),
            rep,
            0,
        ),
{
    lemma_replace_from_splices(haystack, lowercase(query), rep, 0);
}

// ---------------------------------------------------------------------------
// Printing
// ---------------------------------------------------------------------------

/// The status line after printing `name`: whether its text could be written
/// to the file handed to the printer, whether `lp` printed it, and whether
/// the file could instead be opened as a preview (asked only when nothing
/// was printed).
pub open spec fn print_status_spec(name: Seq<char>, wrote: bool, printed: bool, preview_opened: bool) -> Seq<char> {
    if !wrote {
        "There is no document to print."@
    } else if printed {
        "Printed "@ + name
    } else if preview_opened {
        "Opened print preview for "@ + name
    } else {
        "Could not print."@
    }
}

pub fn print_status(name: &str, wrote: bool, printed: bool, preview_opened: bool) -> (r: String)
    ensures
        r@ == print_status_spec(name@, wrote, printed, preview_opened),
{
    if !wrote {
        string_from("There is no document to print.")
    } else if printed {
        let mut s = string_from("Printed ");
        push_str(&mut s, name);
        s
    } else if preview_opened {
        let mut s = string_from("Opened print preview for ");
        push_str(&mut s, name);
        s
    } else {
        string_from("Could not print.")
    }
}

// ---------------------------------------------------------------------------
// Start-up and periodic work
// ---------------------------------------------------------------------------

/// What a new window shows first.
#[derive(Debug, Clone)]
pub enum Startup {
    /// Unsaved work recovered from an earlier session.
    RestoreDraft(RecoverySnapshot),
    /// The file named when the window was opened.
    OpenFile(String),
    /// An empty document.
    StartEmpty,
}

/// A recovered draft wins over the file the window was opened with: the
/// draft holds work that was never saved.
pub fn startup(draft: Option<RecoverySnapshot>, path: Option<String>) -> (r: Startup)
    ensures
        match draft {
            Some(d) => r matches Startup::RestoreDraft(s) && s@ == d@,
            None => match path {
                Some(p) => r matches Startup::OpenFile(q) && q@ == p@,
                None => r is StartEmpty,
            },
        },
{
    match draft {
        Some(d) => Startup::RestoreDraft(d),
        None => match path {
            Some(p) => Startup::OpenFile(p),
            None => Startup::StartEmpty,
        },
    }
}

/// How long, in nanoseconds, the window waits between looks at the theme
/// files and the desktop text scale.
pub const THEME_CHECK_INTERVAL_NS: u64 = 400_000_000;

/// How long, in nanoseconds, unsaved work may go without a recovery write.
pub const RECOVERY_INTERVAL_NS: u64 = 750_000_000;

/// Whether to look at the theme again, `elapsed_ns` after the last look.
pub fn theme_check_due(elapsed_ns: u64) -> (r: bool)
    ensures
        r == (elapsed_ns > THEME_CHECK_INTERVAL_NS),
{
    elapsed_ns > THEME_CHECK_INTERVAL_NS
}

/// Whether to write a recovery snapshot, `elapsed_ns` after the last one:
/// only while there is unsaved work.
pub fn recovery_write_due(modified: bool, elapsed_ns: u64) -> (r: bool)
    ensures
        r == (modified && elapsed_ns > RECOVERY_INTERVAL_NS),
{
    modified && elapsed_ns > RECOVERY_INTERVAL_NS
}

// ---------------------------------------------------------------------------
// Unsaved changes: what waits for the answer to "save first?"
// ---------------------------------------------------------------------------

/// What the window will do once the question about unsaved changes is
/// answered.
#[derive(Debug, Clone, PartialEq, Eq)]
pub enum PendingAction {
    /// Nothing waits.
    Nothing,
    /// Close the window.
    Close,
    /// Open the file at this path.
    Open(String),
}

/// What the window does next.
#[derive(Debug, Clone, PartialEq, Eq)]
pub enum WindowAction {
    Nothing,
    /// Ask whether to save the changes first.
    AskToSave,
    CloseWindow,
    OpenFile(String),
}

pub enum PendingModel {
    Nothing,
    Close,
    Open(Seq<char>),
}

pub enum WindowModel {
    Nothing,
    AskToSave,
    CloseWindow,
    OpenFile(Seq<char>),
}

impl View for PendingAction {
    type V = PendingModel;

    open spec fn view(&self) -> PendingModel {
        match self {
            PendingAction::Nothing => PendingModel::Nothing,
            PendingAction::Close => PendingModel::Close,
            PendingAction::Open(p) => PendingModel::Open(p@),
        }
    }
}

impl View for WindowAction {
    type V = WindowModel;

    open spec fn view(&self) -> WindowModel {
        match self {
            WindowAction::Nothing => WindowModel::Nothing,
            WindowAction::AskToSave => WindowModel::AskToSave,
            WindowAction::CloseWindow => WindowModel::CloseWindow,
            WindowAction::OpenFile(p) => WindowModel::OpenFile(p@),
        }
    }
}

/// A file was chosen to open: with unsaved changes, remember it and ask
/// first; otherwise open it.
pub open spec fn open_request_spec(pending: PendingModel, modified: bool, path: Seq<char>) -> (
    PendingModel,
    WindowModel,
) {
    if modified {
        (PendingModel::Open(path), WindowModel::AskToSave)
    } else {
        (pending, WindowModel::OpenFile(path))
    }
}

/// Quit: with unsaved changes, and unless the window is already waiting to
/// close, ask first; otherwise close.
pub open spec fn quit_spec(pending: PendingModel, modified: bool) -> (PendingModel, WindowModel) {
    if modified && !(pending is Close) {
        (PendingModel::Close, WindowModel::AskToSave)
    } else {
        (pending, WindowModel::CloseWindow)
    }
}

/// The document was saved: carry out what was waiting.
pub open spec fn after_save_spec(pending: PendingModel) -> (PendingModel, WindowModel) {
    match pending {
        PendingModel::Close => (PendingModel::Close, WindowModel::CloseWindow),
        PendingModel::Open(p) => (PendingModel::Nothing, WindowModel::OpenFile(p)),
        PendingModel::Nothing => (PendingModel::Nothing, WindowModel::Nothing),
    }
}

/// The changes were discarded: carry out what was waiting.
pub open spec fn after_discard_spec(pending: PendingModel) -> (PendingModel, WindowModel) {
    match pending {
        PendingModel::Close => (PendingModel::Nothing, WindowModel::CloseWindow),
        PendingModel::Open(p) => (PendingModel::Nothing, WindowModel::OpenFile(p)),
        PendingModel::Nothing => (PendingModel::Nothing, WindowModel::Nothing),
    }
}

pub fn open_request(pending: PendingAction, modified: bool, path: String) -> (r: (
    PendingAction,
    WindowAction,
))
    ensures
        (r.0@, r.1@) == open_request_spec(pending@, modified, path@),
{
    if modified {
        (PendingAction::Open(path), WindowAction::AskToSave)
    } else {
        (pending, WindowAction::OpenFile(path))
    }
}

pub fn quit(pending: PendingAction, modified: bool) -> (r: (PendingAction, WindowAction))
    ensures
        (r.0@, r.1@) == quit_spec(pending@, modified),
{
    let closing = match pending {
        PendingAction::Close => true,
        _ => false,
    };
    if modified && !closing {
        (PendingAction::Close, WindowAction::AskToSave)
    } else {
        (pending, WindowAction::CloseWindow)
    }
}

pub fn after_save(pending: PendingAction) -> (r: (PendingAction, WindowAction))
    ensures
        (r.0@, r.1@) == after_save_spec(pending@),
{
    match pending {
        PendingAction::Close => (PendingAction::Close, WindowAction::CloseWindow),
        PendingAction::Open(p) => (PendingAction::Nothing, WindowAction::OpenFile(p)),
        PendingAction::Nothing => (PendingAction::Nothing, WindowAction::Nothing),
    }
}

pub fn after_discard(pending: PendingAction) -> (r: (PendingAction, WindowAction))
    ensures
        (r.0@, r.1@) == after_discard_spec(pending@),
{
    match pending {
        PendingAction::Close => (PendingAction::Nothing, WindowAction::CloseWindow),
        PendingAction::Open(p) => (PendingAction::Nothing, WindowAction::OpenFile(p)),
        PendingAction::Nothing => (PendingAction::Nothing, WindowAction::Nothing),
    }
}

/// Unsaved changes are never dropped without asking: while the document is
/// modified, a request to open another file, or a first request to quit,
/// only asks; the file chosen is opened once the answer (save or discard)
/// comes, and a quit then closes the window.
pub proof fn law_unsaved_changes_ask_first(pending: PendingModel, path: Seq<char>)
    ensures
        open_request_spec(pending, true, path).1 == WindowModel::AskToSave,
        after_save_spec(open_request_spec(pending, true, path).0).1 == WindowModel::OpenFile(
            path,
        ),
        after_discard_spec(open_request_spec(pending, true, path).0).1 == WindowModel::OpenFile(
            path,
        ),
        !(pending is Close) ==> quit_spec(pending, true).1 == WindowModel::AskToSave,
        after_save_spec(quit_spec(pending, true).0).1 == WindowModel::CloseWindow,
        after_discard_spec(quit_spec(pending, true).0).1 == WindowModel::CloseWindow,
{
}


} // verus!

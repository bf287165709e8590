//! The open document: its text, file, saved state and status line, the
//! window settings that go with it, word counts and suggested file names.

use vstd::prelude::*;
use vstd::string::StringSliceAdditionalSpecFns;
use vstd::utf8::*;

use crate::links::{first_of, first_of_exec, lower_ascii, lower_equals};
use crate::markdown::{normalize_newlines, normalize_plain_text};
use crate::paths::{file_name_of, join_path, parent_of, path_file_name, path_join, path_parent};
use crate::recovery::{opt_view, RecoverySnapshot};
use crate::text::{
    chars_equal_str, chars_of, is_control, is_control_char, push_char, push_str,
    string_from, string_of, trim, trim_bounds,
};
use crate::unicode::{class_contains, CharClass, UnicodeClass};

verus! {

broadcast use vstd::string::group_string_axioms;

// ---------------------------------------------------------------------------
// Word count
// ---------------------------------------------------------------------------

/// Letters and numbers (`\p{L}`, `\p{N}`).
pub open spec fn is_word_char(c: char) -> bool {
    class_contains(UnicodeClass::LetterOrNumber, c)
}

/// Characters that may join two runs of letters into one word.
pub open spec fn is_joiner(c: char) -> bool {
    c == '\'' || c == '-'
}

/// A word is a run of letters and numbers, possibly joined to more such runs
/// by single apostrophes or hyphens (`don't`, `two-three`).  Position `i`
/// starts a word when it holds a letter or number that continues neither a
/// run nor a joined word.
pub open spec fn starts_word(s: Seq<char>, i: int) -> bool {
    is_word_char(s[i]) && (i == 0 || (!is_word_char(s[i - 1]) && !(i >= 2 && is_joiner(s[i - 1])
        && is_word_char(s[i - 2]))))
}

/// The number of words that start at or after position `i`.
pub open spec fn words_from(s: Seq<char>, i: int) -> nat
    decreases s.len() - i,
{
    if i < 0 || i >= s.len() {
        0
    } else {
        (if starts_word(s, i) {
            1nat
        } else {
            0nat
        }) + words_from(s, i + 1)
    }
}

/// The number of words in `s`.
pub open spec fn word_count_spec(s: Seq<char>) -> nat {
    words_from(s, 0)
}

/// Counts words: letters and numbers, with internal apostrophes or hyphens
/// (`don't`, `two-three`) inside one word.
pub fn count_words(text: &str) -> (r: usize)
    ensures
        r == word_count_spec(text@),
{
    let v = chars_of(text);
    let class = CharClass::letters_and_numbers();
    let mut n: usize = 0;
    let mut i: usize = 0;
    let mut w1 = false;
    let mut w2 = false;
    while i < v.len()
        invariant
            i <= v.len(),
            n <= i,
            class.class() == UnicodeClass::LetterOrNumber,
            n + words_from(v@, i as int) == words_from(v@, 0),
            w1 == (i >= 1 && is_word_char(v@[i - 1])),
            w2 == (i >= 2 && is_word_char(v@[i - 2])),
        decreases v.len() - i,
    {
        let w = class.contains(v[i]);
        let starts = w && (i == 0 || (!w1 && !(i >= 2 && (v[i - 1] == '\'' || v[i - 1] == '-')
            && w2)));
        assert(starts == starts_word(v@, i as int));
        if starts {
            n = n + 1;
        }
        w2 = w1;
        w1 = w;
        i = i + 1;
    }
    n
}

// ---------------------------------------------------------------------------
// Suggested file names
// ---------------------------------------------------------------------------

/// `/` and control characters cannot stand in a file name.
pub open spec fn sanitize_char(c: char) -> char {
    if c == '/' || is_control_char(c) {
        '-'
    } else {
        c
    }
}

pub open spec fn sanitize(s: Seq<char>) -> Seq<char> {
    s.map_values(|c: char| sanitize_char(c))
}

/// The text before the first newline.
pub open spec fn first_line(s: Seq<char>) -> Seq<char> {
    s.take(first_of(s, seq!['\n'], 0))
}

/// Whether `n` ends with `.md`, in any ASCII case.
pub open spec fn ends_with_md(n: Seq<char>) -> bool {
    n.len() >= 3 && lower_ascii(n.skip(n.len() - 3)) == ".md"@
}

/// The file name offered for a new document: its first line, trimmed, with
/// `/` and control characters replaced by `-`, cut to 120 characters, or
/// `Untitled` when nothing usable is left; `.md` is added unless present.
pub open spec fn suggested_name_spec(text: Seq<char>) -> Seq<char> {
    let n0 = sanitize(trim(first_line(text)));
    let n1 = if n0.len() > 120 {
        trim(n0.take(120))
    } else {
        n0
    };
    let n2 = if n1.len() == 0 || n1 == "."@ || n1 == ".."@ {
        "Untitled"@
    } else {
        n1
    };
    if ends_with_md(n2) {
        n2
    } else {
        n2 + ".md"@
    }
}

fn sanitize_char_exec(c: char) -> (r: char)
    ensures
        r == sanitize_char(c),
{
    if c == '/' || is_control(c) {
        '-'
    } else {
        c
    }
}

/// A file name for a new document, from its first line.
pub fn suggested_file_name(text: &str) -> (r: String)
    ensures
        r@ == suggested_name_spec(text@),
{
    let v = chars_of(text);
    let nl: Vec<char> = vec!['\n'];
    assert(nl@ =~= seq!['\n']);
    let e = first_of_exec(&v, 0, v.len(), &nl);
    assert(v@.subrange(0, v.len() as int) =~= v@);
    assert(v@.subrange(0, e as int) =~= first_line(v@));
    let (a, b) = trim_bounds(&v, 0, e);
    let mut name: Vec<char> = Vec::new();
    let mut i = a;
    while i < b
        invariant
            a <= i <= b <= v.len(),
            name@ == sanitize(v@.subrange(a as int, i as int)),
        decreases b - i,
    {
        name.push(sanitize_char_exec(v[i]));
        assert(sanitize(v@.subrange(a as int, i + 1)) =~= sanitize(v@.subrange(a as int, i as int)).push(
            sanitize_char(v@[i as int]),
        ));
        i = i + 1;
    }
    let ghost n0 = name@;
    assert(n0 == sanitize(trim(first_line(v@))));
    if name.len() > 120 {
        let (c, d) = trim_bounds(&name, 0, 120);
        assert(name@.subrange(0, 120) =~= n0.take(120));
        let mut cut: Vec<char> = Vec::new();
        let mut k = c;
        while k < d
            invariant
                c <= k <= d <= name.len(),
                cut@ == name@.subrange(c as int, k as int),
            decreases d - k,
        {
            cut.push(name[k]);
            assert(name@.subrange(c as int, k + 1) =~= name@.subrange(c as int, k as int).push(
                name@[k as int],
            ));
            k = k + 1;
        }
        name = cut;
    }
    let ghost n1 = name@;
    assert(n1 == if n0.len() > 120 {
        trim(n0.take(120))
    } else {
        n0
    });
    let len = name.len();
    assert(name@.subrange(0, len as int) =~= name@);
    if len == 0 || chars_equal_str(&name, 0, len, ".") || chars_equal_str(&name, 0, len, "..") {
        name = chars_of("Untitled");
    }
    let ghost n2 = name@;
    assert(n2 == if n1.len() == 0 || n1 == "."@ || n1 == ".."@ {
        "Untitled"@
    } else {
        n1
    });
    assert(name@.subrange(0, name.len() as int) =~= name@);
    let mut out = string_of(&name, 0, name.len());
    let n = name.len();
    let has_md = n >= 3 && lower_equals(&name, n - 3, n, ".md");
    proof {
        if n >= 3 {
            assert(name@.subrange(n - 3, n as int) =~= name@.skip(n - 3));
        }
    }
    if !has_md {
        push_str(&mut out, ".md");
    }
    out
}

// ---------------------------------------------------------------------------
// Settings
// ---------------------------------------------------------------------------

/// Window geometry and the last directory saved to, kept between sessions.
#[derive(Debug, Clone)]
pub struct AppSettings {
    pub last_save_directory: Option<String>,
    pub window_x: Option<i32>,
    pub window_y: Option<i32>,
    pub window_width: u32,
    pub window_height: u32,
    pub maximized: bool,
}

/// What [`AppSettings`] hold.
pub struct SettingsModel {
    pub last_save_directory: Option<Seq<char>>,
    pub window_x: Option<i32>,
    pub window_y: Option<i32>,
    pub window_width: u32,
    pub window_height: u32,
    pub maximized: bool,
}

impl View for AppSettings {
    type V = SettingsModel;

    open spec fn view(&self) -> SettingsModel {
        SettingsModel {
            last_save_directory: opt_view(self.last_save_directory),
            window_x: self.window_x,
            window_y: self.window_y,
            window_width: self.window_width,
            window_height: self.window_height,
            maximized: self.maximized,
        }
    }
}

/// The settings of a first start: a 1280×820 window placed by the desktop.
pub open spec fn default_settings() -> SettingsModel {
    SettingsModel {
        last_save_directory: None,
        window_x: None,
        window_y: None,
        window_width: 1280,
        window_height: 820,
        maximized: false,
    }
}

impl Default for AppSettings {
    fn default() -> (r: Self)
        ensures
            r@ == default_settings(),
    {
        AppSettings {
            last_save_directory: None,
            window_x: None,
            window_y: None,
            window_width: 1280,
            window_height: 820,
            maximized: false,
        }
    }
}

// ---------------------------------------------------------------------------
// The document
// ---------------------------------------------------------------------------

/// Why opening or saving failed, as the status line shows it.
#[derive(Debug, Clone)]
pub struct SaveError {
    pub message: String,
}

/// What a [`DocumentStore`] holds.
pub struct DocumentModel {
    pub path: Option<Seq<char>>,
    pub text: Seq<char>,
    pub modified: bool,
    pub status: Seq<char>,
    pub known: Option<Seq<u8>>,
    pub settings_path: Seq<char>,
    pub settings: SettingsModel,
}

/// The document being edited and what is known of its file.
#[derive(Debug, Clone)]
pub struct DocumentStore {
    pub path: Option<String>,
    pub text: String,
    pub modified: bool,
    pub status: String,
    pub last_known_file_contents: Option<Vec<u8>>,
    /// Where the settings are stored.
    pub settings_path: String,
    /// The window settings, written out by the caller when they change.
    pub settings: AppSettings,
}

pub open spec fn bytes_view(o: Option<Vec<u8>>) -> Option<Seq<u8>> {
    match o {
        Some(v) => Some(v@),
        None => None,
    }
}

impl View for DocumentStore {
    type V = DocumentModel;

    open spec fn view(&self) -> DocumentModel {
        DocumentModel {
            path: opt_view(self.path),
            text: self.text@,
            modified: self.modified,
            status: self.status@,
            known: bytes_view(self.last_known_file_contents),
            settings_path: self.settings_path@,
            settings: self.settings@,
        }
    }
}

/// The name shown for the document: the file name of its path, or
/// `Untitled.md`.
pub open spec fn display_name(path: Option<Seq<char>>) -> Seq<char> {
    match path {
        Some(p) => match path_file_name(p) {
            Some(n) => if n.len() > 0 {
                n
            } else {
                "Untitled.md"@
            },
            None => "Untitled.md"@,
        },
        None => "Untitled.md"@,
    }
}

/// The name used in messages about a path: its file name, or `file`.
pub open spec fn message_name(path: Seq<char>) -> Seq<char> {
    match path_file_name(path) {
        Some(n) => n,
        None => "file"@,
    }
}

/// The window title: `* ` when modified, the name, ` - Piwrite`.
pub open spec fn window_title_spec(m: DocumentModel) -> Seq<char> {
    (if m.modified {
        "* "@
    } else {
        ""@
    }) + display_name(m.path) + " - Piwrite"@
}

/// A new, empty document.
pub open spec fn new_document(settings_path: Seq<char>, settings: SettingsModel) -> DocumentModel {
    DocumentModel {
        path: None,
        text: seq![],
        modified: false,
        status: seq![],
        known: None,
        settings_path,
        settings,
    }
}

/// Text from the editor: normalized, and marked unsaved when it changed.
pub open spec fn set_text_spec(m: DocumentModel, text: Seq<char>) -> (DocumentModel, bool) {
    let t = normalize_newlines(text);
    if t == m.text {
        (m, false)
    } else {
        (DocumentModel { text: t, modified: true, status: "Unsaved"@, ..m }, true)
    }
}

/// The text of file contents: UTF-8 decoded, with invalid sequences replaced
/// as `String::from_utf8_lossy` replaces them.
pub open spec fn decoded_text(b: Seq<u8>) -> Seq<char> {
    if valid_utf8(b) {
        decode_utf8(b)
    } else {
        utf8_lossy(b)
    }
}

/// Opening `path` with the contents read from it (`None` when the read
/// failed): the new state, and the error message if any.
pub open spec fn open_spec(m: DocumentModel, path: Seq<char>, contents: Option<Seq<u8>>) -> (
    DocumentModel,
    Option<Seq<char>>,
) {
    match contents {
        None => (m, Some("Could not open "@ + message_name(path) + "."@)),
        Some(b) => (
            DocumentModel {
                text: normalize_newlines(decoded_text(b)),
                known: Some(b),
                path: Some(path),
                modified: false,
                status: "Opened "@ + display_name(Some(path)),
                ..m
            },
            None,
        ),
    }
}

/// Saving to `path`, given whether writing the text there succeeded.
pub open spec fn save_spec(m: DocumentModel, path: Seq<char>, written: bool) -> (
    DocumentModel,
    Option<Seq<char>>,
) {
    if !written {
        (m, Some("Could not save "@ + message_name(path) + "."@))
    } else {
        (
            DocumentModel {
                known: Some(encode_utf8(m.text)),
                path: Some(path),
                settings: match path_parent(path) {
                    Some(p) => SettingsModel { last_save_directory: Some(p), ..m.settings },
                    None => m.settings,
                },
                modified: false,
                status: "Saved "@ + message_name(path),
                ..m
            },
            None,
        )
    }
}

/// Keeping the local version after the file changed on disk, given what is
/// on disk now (`None` when it cannot be read).
pub open spec fn keep_spec(m: DocumentModel, on_disk: Option<Seq<u8>>) -> DocumentModel {
    DocumentModel {
        known: if m.path is Some {
            on_disk
        } else {
            m.known
        },
        modified: true,
        status: "Kept your version"@,
        ..m
    }
}

/// Whether what is on disk is what the document last read or wrote.
pub open spec fn matches_disk_spec(m: DocumentModel, on_disk: Option<Seq<u8>>) -> bool {
    match (m.known, on_disk) {
        (Some(k), Some(d)) => k == d,
        _ => false,
    }
}

/// The path of a `file://` URL.
pub open spec fn file_url_path_spec(url: Seq<char>) -> Option<Seq<char>> {
    if url.len() >= 7 && url.take(7) == "file://"@ {
        Some(url.skip(7))
    } else {
        None
    }
}

pub open spec fn url_path(url: Option<Seq<char>>) -> Option<Seq<char>> {
    match url {
        Some(u) => file_url_path_spec(u),
        None => None,
    }
}

/// Restoring a recovered snapshot, given what is on disk at its path.
pub open spec fn restore_spec(
    m: DocumentModel,
    snapshot: (Option<Seq<char>>, Seq<char>),
    on_disk: Option<Seq<u8>>,
) -> DocumentModel {
    DocumentModel {
        text: normalize_newlines(snapshot.1),
        path: url_path(snapshot.0),
        known: if url_path(snapshot.0) is Some {
            on_disk
        } else {
            None
        },
        modified: true,
        status: "Recovered unsaved changes"@,
        ..m
    }
}

/// The snapshot to write for recovery: only unsaved work is kept.
pub open spec fn snapshot_spec(m: DocumentModel) -> Option<(Option<Seq<char>>, Seq<char>)> {
    if !m.modified {
        None
    } else {
        Some(
            (
                match m.path {
                    Some(p) => Some("file://"@ + p),
                    None => None,
                },
                m.text,
            ),
        )
    }
}

/// Window geometry is remembered only while not maximized.
pub open spec fn geometry_spec(
    m: DocumentModel,
    x: i32,
    y: i32,
    width: u32,
    height: u32,
    maximized: bool,
) -> DocumentModel {
    let s = m.settings;
    DocumentModel {
        settings: if maximized {
            SettingsModel { maximized, ..s }
        } else {
            SettingsModel {
                window_x: Some(x),
                window_y: Some(y),
                window_width: width,
                window_height: height,
                maximized,
                ..s
            }
        },
        ..m
    }
}

/// Where Save As proposes to save: the current path, or the suggested name
/// in the last directory saved to (when it is still a directory) or else in
/// the home directory.
pub open spec fn suggested_save_path_spec(m: DocumentModel, last_dir_is_dir: bool, home: Seq<
    char,
>) -> Seq<char> {
    match m.path {
        Some(p) => p,
        None => {
            let dir = match m.settings.last_save_directory {
                Some(d) => if last_dir_is_dir {
                    d
                } else {
                    home
                },
                None => home,
            };
            path_join(dir, suggested_name_spec(m.text))
        },
    }
}

/// What `String::from_utf8_lossy` gives for these bytes.
pub uninterp spec fn utf8_lossy(bytes: Seq<u8>) -> Seq<char>;

/// `String::from_utf8_lossy`; valid UTF-8 is decoded as it is.
#[verifier::external_body]
fn from_utf8_lossy(bytes: &[u8]) -> (r: String)
    ensures
        r@ == utf8_lossy(bytes@),
        valid_utf8(bytes@) ==> r@ == decode_utf8(bytes@),
{
    String::from_utf8_lossy(bytes).into_owned()
}

/// "`prefix``name`".
fn concat(prefix: &str, name: &str) -> (r: String)
    ensures
        r@ == prefix@ + name@,
{
    let mut s = string_from(prefix);
    push_str(&mut s, name);
    s
}

/// "`prefix``name``suffix`".
fn message(prefix: &str, name: &str, suffix: &str) -> (r: String)
    ensures
        r@ == prefix@ + name@ + suffix@,
{
    let mut s = string_from(prefix);
    push_str(&mut s, name);
    push_str(&mut s, suffix);
    assert(s@ =~= prefix@ + name@ + suffix@);
    s
}

/// The file name of `path`, or `file`.
fn message_name_of(path: &str) -> (r: String)
    ensures
        r@ == message_name(path@),
{
    match file_name_of(path) {
        Some(n) => n,
        None => string_from("file"),
    }
}

fn bytes_equal(a: &[u8], b: &[u8]) -> (r: bool)
    ensures
        r == (a@ == b@),
{
    if a.len() != b.len() {
        return false;
    }
    let mut i: usize = 0;
    while i < a.len()
        invariant
            i <= a.len(),
            a.len() == b.len(),
            forall|k: int| 0 <= k < i ==> a@[k] == b@[k],
        decreases a.len() - i,
    {
        if a[i] != b[i] {
            return false;
        }
        i = i + 1;
    }
    assert(a@ =~= b@);
    true
}

/// The path of a `file://` URL, or `None` for other URLs.
pub fn file_url_to_path(url: &str) -> (r: Option<String>)
    ensures
        opt_view(r) == file_url_path_spec(url@),
{
    let v = chars_of(url);
    if v.len() >= 7 && chars_equal_str(&v, 0, 7, "file://") {
        assert(v@.subrange(0, 7) =~= v@.take(7));
        assert(v@.subrange(7, v.len() as int) =~= v@.skip(7));
        Some(string_of(&v, 7, v.len()))
    } else {
        proof {
            if v.len() >= 7 {
                assert(v@.subrange(0, 7) =~= v@.take(7));
            }
        }
        None
    }
}

impl DocumentStore {
    /// A new, empty document with the settings read from `settings_path`.
    pub fn new(settings_path: String, settings: AppSettings) -> (r: Self)
        ensures
            r@ == new_document(settings_path@, settings@),
    {
        let r = DocumentStore {
            path: None,
            text: String::new(),
            modified: false,
            status: String::new(),
            last_known_file_contents: None,
            settings_path,
            settings,
        };
        assert(r@ == new_document(settings_path@, settings@));
        r
    }

    /// The name shown for the document.
    pub fn file_name(&self) -> (r: String)
        ensures
            r@ == display_name(self@.path),
    {
        match &self.path {
            Some(p) => match file_name_of(p.as_str()) {
                Some(n) => {
                    if n.as_str().is_empty() {
                        string_from("Untitled.md")
                    } else {
                        n
                    }
                },
                None => string_from("Untitled.md"),
            },
            None => string_from("Untitled.md"),
        }
    }

    /// `* name - Piwrite` while modified, `name - Piwrite` otherwise.
    pub fn window_title(&self) -> (r: String)
        ensures
            r@ == window_title_spec(self@),
    {
        let mark = if self.modified {
            "* "
        } else {
            ""
        };
        let name = self.file_name();
        message(mark, name.as_str(), " - Piwrite")
    }

    /// The number of words in the text.
    pub fn word_count(&self) -> (r: usize)
        ensures
            r == word_count_spec(self@.text),
    {
        count_words(self.text.as_str())
    }

    pub fn settings(&self) -> (r: &AppSettings)
        ensures
            r@ == self@.settings,
    {
        &self.settings
    }

    /// Where the settings are stored.
    pub fn settings_path(&self) -> (r: &str)
        ensures
            r@ == self@.settings_path,
    {
        self.settings_path.as_str()
    }

    /// Remembers the window geometry (the position and size only while not
    /// maximized); the caller then writes the settings out.
    pub fn persist_window_geometry(
        &mut self,
        x: i32,
        y: i32,
        width: u32,
        height: u32,
        maximized: bool,
    )
        ensures
            final(self)@ == geometry_spec(old(self)@, x, y, width, height, maximized),
    {
        if !maximized {
            self.settings.window_x = Some(x);
            self.settings.window_y = Some(y);
            self.settings.window_width = width;
            self.settings.window_height = height;
        }
        self.settings.maximized = maximized;
    }

    /// Takes the editor's text; returns whether it changed.
    pub fn set_text_from_editor(&mut self, text: String) -> (r: bool)
        ensures
            (final(self)@, r) == set_text_spec(old(self)@, text@),
    {
        let text = normalize_plain_text(text.as_str());
        if text == self.text {
            return false;
        }
        self.text = text;
        self.modified = true;
        self.status = string_from("Unsaved");
        true
    }

    /// Opens `path`, given what reading it gave (`None` when it failed).
    pub fn open_path(&mut self, path: &str, contents: Option<Vec<u8>>) -> (r: Result<(), SaveError>)
        ensures
            final(self)@ == open_spec(old(self)@, path@, bytes_view(contents)).0,
            match open_spec(old(self)@, path@, bytes_view(contents)).1 {
                Some(msg) => r matches Err(e) && e.message@ == msg,
                None => r is Ok,
            },
    {
        match contents {
            None => {
                let name = message_name_of(path);
                Err(SaveError { message: message("Could not open ", name.as_str(), ".") })
            },
            Some(bytes) => {
                let text = from_utf8_lossy(bytes.as_slice());
                self.text = normalize_plain_text(text.as_str());
                self.last_known_file_contents = Some(bytes);
                self.path = Some(string_from(path));
                self.modified = false;
                let name = self.file_name();
                self.status = concat("Opened ", name.as_str());
                Ok(())
            },
        }
    }

    /// Where Save As proposes to save; `last_dir_is_dir` tells whether the
    /// last directory saved to still is a directory, `home` is the home
    /// directory.
    pub fn suggested_save_path(&self, last_dir_is_dir: bool, home: &str) -> (r: String)
        ensures
            r@ == suggested_save_path_spec(self@, last_dir_is_dir, home@),
    {
        if let Some(path) = &self.path {
            return path.clone();
        }
        let name = suggested_file_name(self.text.as_str());
        match &self.settings.last_save_directory {
            Some(d) => {
                if last_dir_is_dir {
                    join_path(d.as_str(), name.as_str())
                } else {
                    join_path(home, name.as_str())
                }
            },
            None => join_path(home, name.as_str()),
        }
    }

    /// Records a save to `path`, given whether writing the text there
    /// succeeded.  The caller writes the settings out afterwards.
    pub fn save_to(&mut self, path: &str, written: bool) -> (r: Result<(), SaveError>)
        ensures
            final(self)@ == save_spec(old(self)@, path@, written).0,
            match save_spec(old(self)@, path@, written).1 {
                Some(msg) => r matches Err(e) && e.message@ == msg,
                None => r is Ok,
            },
    {
        let name = message_name_of(path);
        if !written {
            return Err(SaveError { message: message("Could not save ", name.as_str(), ".") });
        }
        let contents = vstd::slice::slice_to_vec(self.text.as_str().as_bytes());
        self.last_known_file_contents = Some(contents);
        self.path = Some(string_from(path));
        match parent_of(path) {
            Some(parent) => {
                self.settings.last_save_directory = Some(parent);
            },
            None => {},
        }
        self.modified = false;
        self.status = concat("Saved ", name.as_str());
        Ok(())
    }

    /// Keeps the local version after a change on disk; `on_disk` is what
    /// reading the file now gave.
    pub fn keep_external_version(&mut self, on_disk: Option<Vec<u8>>)
        ensures
            final(self)@ == keep_spec(old(self)@, bytes_view(on_disk)),
    {
        if self.path.is_some() {
            self.last_known_file_contents = on_disk;
        }
        self.modified = true;
        self.status = string_from("Kept your version");
    }

    /// Whether what is on disk is what the document last read or wrote.
    pub fn contents_match_disk(&self, on_disk: Option<&[u8]>) -> (r: bool)
        ensures
            r == matches_disk_spec(
                self@,
                match on_disk {
                    Some(d) => Some(d@),
                    None => None,
                },
            ),
    {
        match (&self.last_known_file_contents, on_disk) {
            (Some(known), Some(d)) => bytes_equal(known.as_slice(), d),
            _ => false,
        }
    }

    /// Restores recovered unsaved work; `on_disk` is what reading the file
    /// at the snapshot's path gave.
    pub fn restore_recovery(&mut self, snapshot: RecoverySnapshot, on_disk: Option<Vec<u8>>)
        ensures
            final(self)@ == restore_spec(old(self)@, snapshot@, bytes_view(on_disk)),
    {
        self.text = normalize_plain_text(snapshot.text.as_str());
        self.path = match &snapshot.file_url {
            Some(url) => file_url_to_path(url.as_str()),
            None => None,
        };
        if self.path.is_some() {
            self.last_known_file_contents = on_disk;
        } else {
            self.last_known_file_contents = None;
        }
        self.modified = true;
        self.status = string_from("Recovered unsaved changes");
    }

    /// The snapshot to write for recovery, when there is unsaved work.
    pub fn recovery_snapshot(&self) -> (r: Option<RecoverySnapshot>)
        ensures
            match snapshot_spec(self@) {
                Some(s) => r matches Some(t) && t@ == s,
                None => r is None,
            },
    {
        if !self.modified {
            return None;
        }
        let file_url = match &self.path {
            Some(p) => Some(concat("file://", p.as_str())),
            None => None,
        };
        let r = RecoverySnapshot { file_url, text: self.text.clone() };
        Some(r)
    }
}

// ---------------------------------------------------------------------------
// Laws
// ---------------------------------------------------------------------------

/// After a successful save the document is saved, has the new path, and
/// recognizes the bytes it wrote, when read back from disk, as its own.
pub proof fn law_saved_file_matches(m: DocumentModel, path: Seq<char>)
    ensures
        ({
            let (m2, err) = save_spec(m, path, true);
            &&& err is None
            &&& !m2.modified
            &&& m2.path == Some(path)
            &&& m2.text == m.text
            &&& matches_disk_spec(m2, Some(encode_utf8(m.text)))
        }),
{
}

/// A failed save changes nothing.
pub proof fn law_failed_save_changes_nothing(m: DocumentModel, path: Seq<char>)
    ensures
        save_spec(m, path, false).0 == m,
        save_spec(m, path, false).1 is Some,
{
}

/// Opening a file of valid UTF-8 with `\n` line endings and saving the text
/// unchanged writes back exactly the bytes that were read, and the file then
/// matches.
pub proof fn law_open_save_round_trip(
    m: DocumentModel,
    path: Seq<char>,
    bytes: Seq<u8>,
    save_path: Seq<char>,
)
    requires
        valid_utf8(bytes),
        !decode_utf8(bytes).contains('\r'),
    ensures
        ({
            let (m1, e1) = open_spec(m, path, Some(bytes));
            let (m2, e2) = save_spec(m1, save_path, true);
            &&& e1 is None
            &&& !m1.modified
            &&& encode_utf8(m1.text) == bytes
            &&& m2.known == Some(bytes)
            &&& matches_disk_spec(m2, Some(bytes))
        }),
{
    crate::markdown::lemma_normalize_without_cr(decode_utf8(bytes));
    decode_utf8_encode_utf8(bytes);
}

/// Handing the editor the same text twice changes the document once at
/// most: the second time nothing changes.
pub proof fn law_set_text_twice(m: DocumentModel, text: Seq<char>)
    ensures
        ({
            let (m1, _) = set_text_spec(m, text);
            set_text_spec(m1, text) == (m1, false)
        }),
{
}

/// A file URL made from a path gives the path back.
pub proof fn law_file_url_round_trip(path: Seq<char>)
    ensures
        file_url_path_spec("file://"@ + path) == Some(path),
{
    reveal_strlit("file://");
    assert(("file://"@ + path).take(7) =~= "file://"@);
    assert(("file://"@ + path).skip(7) =~= path);
}

/// Unsaved work survives a crash: restoring the snapshot of a modified
/// document (its text already normalized) gives back its text and path,
/// still marked unsaved.
pub proof fn law_recovery_round_trip(
    m: DocumentModel,
    fresh: DocumentModel,
    on_disk: Option<Seq<u8>>,
)
    requires
        m.modified,
        !m.text.contains('\r'),
    ensures
        snapshot_spec(m) is Some,
        ({
            let r = restore_spec(fresh, snapshot_spec(m)->0, on_disk);
            &&& r.text == m.text
            &&& r.path == m.path
            &&& r.modified
        }),
{
    crate::markdown::lemma_normalize_without_cr(m.text);
    match m.path {
        Some(p) => law_file_url_round_trip(p),
        None => {},
    }
}

/// Every character of a trimmed sequence comes from the sequence.
proof fn lemma_trim_chars(s: Seq<char>)
    ensures
        forall|i: int|
            0 <= i < trim(s).len() ==> exists|j: int| 0 <= j < s.len() && #[trigger] trim(s)[i] == s[j],
{
    lemma_trim_start_chars(s);
    lemma_trim_end_chars(crate::text::trim_start(s));
    assert forall|i: int| 0 <= i < trim(s).len() implies exists|j: int|
        0 <= j < s.len() && #[trigger] trim(s)[i] == s[j] by {
        let k = choose|k: int|
            0 <= k < crate::text::trim_start(s).len() && trim(s)[i] == crate::text::trim_start(s)[k];
        let j = choose|j: int| 0 <= j < s.len() && crate::text::trim_start(s)[k] == s[j];
    }
}

proof fn lemma_trim_start_chars(s: Seq<char>)
    ensures
        forall|i: int|
            0 <= i < crate::text::trim_start(s).len() ==> exists|j: int|
                0 <= j < s.len() && #[trigger] crate::text::trim_start(s)[i] == s[j],
    decreases s.len(),
{
    if s.len() > 0 && crate::text::is_white_space(s[0]) {
        lemma_trim_start_chars(s.drop_first());
        assert forall|i: int| 0 <= i < crate::text::trim_start(s).len() implies exists|j: int|
            0 <= j < s.len() && #[trigger] crate::text::trim_start(s)[i] == s[j] by {
            let j = choose|j: int|
                0 <= j < s.drop_first().len() && crate::text::trim_start(s.drop_first())[i]
                    == s.drop_first()[j];
            assert(s[j + 1] == s.drop_first()[j]);
        }
    } else {
        assert forall|i: int| 0 <= i < crate::text::trim_start(s).len() implies exists|j: int|
            0 <= j < s.len() && #[trigger] crate::text::trim_start(s)[i] == s[j] by {
            assert(crate::text::trim_start(s)[i] == s[i]);
        }
    }
}

proof fn lemma_trim_end_chars(s: Seq<char>)
    ensures
        crate::text::trim_end(s).len() <= s.len(),
        forall|i: int|
            0 <= i < crate::text::trim_end(s).len() ==> #[trigger] crate::text::trim_end(s)[i]
                == s[i],
    decreases s.len(),
{
    if s.len() > 0 && crate::text::is_white_space(s.last()) {
        lemma_trim_end_chars(s.drop_last());
    }
}

/// Whether `c` may stand in a suggested file name.
pub open spec fn name_char_ok(c: char) -> bool {
    c != '/' && !is_control_char(c)
}

/// A suggested file name always ends with `.md` (in some ASCII case) and
/// holds no `/` and no control character.
pub proof fn law_suggested_name_shape(text: Seq<char>)
    ensures
        ends_with_md(suggested_name_spec(text)),
        forall|i: int|
            0 <= i < suggested_name_spec(text).len() ==> name_char_ok(
                #[trigger] suggested_name_spec(text)[i],
            ),
{
    let n0 = sanitize(trim(first_line(text)));
    assert forall|i: int| 0 <= i < n0.len() implies name_char_ok(#[trigger] n0[i]) by {}
    let n1 = if n0.len() > 120 {
        trim(n0.take(120))
    } else {
        n0
    };
    if n0.len() > 120 {
        lemma_trim_chars(n0.take(120));
        assert forall|i: int| 0 <= i < n1.len() implies name_char_ok(#[trigger] n1[i]) by {
            let j = choose|j: int| 0 <= j < n0.take(120).len() && n1[i] == n0.take(120)[j];
            assert(n0.take(120)[j] == n0[j]);
        }
    }
    let n2 = if n1.len() == 0 || n1 == "."@ || n1 == ".."@ {
        "Untitled"@
    } else {
        n1
    };
    reveal_strlit("Untitled");
    reveal_strlit(".md");
    assert forall|i: int| 0 <= i < n2.len() implies name_char_ok(#[trigger] n2[i]) by {}
    let r = suggested_name_spec(text);
    if !ends_with_md(n2) {
        assert(r == n2 + ".md"@);
        assert(r.skip(r.len() - 3) =~= ".md"@);
        assert(lower_ascii(".md"@) =~= ".md"@);
        assert forall|i: int| 0 <= i < r.len() implies name_char_ok(#[trigger] r[i]) by {
            if i >= n2.len() {
                assert(r[i] == ".md"@[i - n2.len()]);
            }
        }
    }
}

proof fn lemma_words_prefix(a: Seq<char>, r: Seq<char>, i: int)
    requires
        0 <= i <= a.len(),
    ensures
        words_from(a + r, i) == words_from(a, i) + words_from(a + r, a.len() as int),
    decreases a.len() - i,
{
    let s = a + r;
    if i < a.len() {
        lemma_words_prefix(a, r, i + 1);
        assert(s[i] == a[i]);
        if i >= 1 {
            assert(s[i - 1] == a[i - 1]);
        }
        if i >= 2 {
            assert(s[i - 2] == a[i - 2]);
        }
        assert(starts_word(s, i) == starts_word(a, i));
    }
}

proof fn lemma_words_suffix(s: Seq<char>, m: int, b: Seq<char>, j: int)
    requires
        1 <= m <= s.len(),
        s.skip(m) == b,
        !is_word_char(s[m - 1]),
        !is_joiner(s[m - 1]),
        0 <= j <= b.len(),
    ensures
        words_from(s, m + j) == words_from(b, j),
    decreases b.len() - j,
{
    if j < b.len() {
        lemma_words_suffix(s, m, b, j + 1);
        assert(s[m + j] == b[j]);
        if j >= 1 {
            assert(s[m + j - 1] == b[j - 1]);
        }
        if j >= 2 {
            assert(s[m + j - 2] == b[j - 2]);
        }
        assert(starts_word(s, m + j) == starts_word(b, j));
    }
}

/// Joining two texts with a separator that is neither a letter, a number,
/// an apostrophe nor a hyphen adds their word counts.
pub proof fn law_word_count_join(a: Seq<char>, sep: char, b: Seq<char>)
    requires
        !is_word_char(sep),
        !is_joiner(sep),
    ensures
        word_count_spec(a + seq![sep] + b) == word_count_spec(a) + word_count_spec(b),
{
    let s = a + seq![sep] + b;
    let m = a.len() + 1int;
    lemma_words_prefix(a, seq![sep] + b, 0);
    assert(a + (seq![sep] + b) =~= s);
    assert(s[a.len() as int] == sep);
    assert(s.skip(m) =~= b);
    lemma_words_suffix(s, m, b, 0);
}


/// Only unsaved work is kept for recovery: there is a snapshot exactly when
/// the document is modified; it holds the document's text, and a file URL
/// exactly when the document has a file, one that leads back to that file.
pub proof fn law_snapshot_only_unsaved(m: DocumentModel)
    ensures
        snapshot_spec(m) is Some <==> m.modified,
        snapshot_spec(m) matches Some(s) ==> {
            &&& s.1 == m.text
            &&& (s.0 is Some <==> m.path is Some)
            &&& (s.0 matches Some(u) ==> file_url_path_spec(u) == m.path)
        },
{
    match m.path {
        Some(p) => law_file_url_round_trip(p),
        None => {},
    }
}

} // verus!

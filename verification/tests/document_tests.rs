use piwrite::document::file_url_to_path;
use piwrite::{count_words, suggested_file_name, AppSettings, DocumentStore, RecoverySnapshot};

#[test]
fn counts_words() {
    assert_eq!(count_words("one two-three don't 42"), 4);
    assert_eq!(count_words("你好 世界"), 2);
    assert_eq!(count_words(""), 0);
}

#[test]
fn counts_joined_and_separated_words() {
    assert_eq!(count_words("a--b"), 2);
    assert_eq!(count_words("co-op's"), 1);
    assert_eq!(count_words("-x-"), 1);
    assert_eq!(count_words("it' s"), 2);
    assert_eq!(count_words("Ünïcödé wörds"), 2);
    assert_eq!(count_words("... !!!"), 0);
    assert_eq!(count_words("x\ny"), 2);
}

#[test]
fn suggests_safe_names() {
    assert_eq!(
        suggested_file_name("My first draft\nBody"),
        "My first draft.md"
    );
    assert_eq!(suggested_file_name("A/B"), "A-B.md");
    assert_eq!(suggested_file_name(""), "Untitled.md");
    assert_eq!(suggested_file_name("Already.md"), "Already.md");
}

#[test]
fn suggested_names_edge_cases() {
    assert_eq!(suggested_file_name("  .  "), "Untitled.md");
    assert_eq!(suggested_file_name(".."), "Untitled.md");
    assert_eq!(suggested_file_name("Notes.MD"), "Notes.MD");
    assert_eq!(suggested_file_name("tab\there"), "tab-here.md");
    let long = "a".repeat(130);
    assert_eq!(suggested_file_name(&long), format!("{}.md", "a".repeat(120)));
    let spaced = format!("{} {}", "b".repeat(119), "c".repeat(5));
    assert_eq!(suggested_file_name(&spaced), format!("{}.md", "b".repeat(119)));
}

fn store() -> DocumentStore {
    DocumentStore::new("/tmp/settings.json".to_string(), AppSettings::default())
}

#[test]
fn default_settings() {
    let s = AppSettings::default();
    assert_eq!(s.window_width, 1280);
    assert_eq!(s.window_height, 820);
    assert_eq!(s.window_x, None);
    assert!(!s.maximized);
    assert!(s.last_save_directory.is_none());
}

#[test]
fn new_document_is_untitled() {
    let doc = store();
    assert_eq!(doc.file_name(), "Untitled.md");
    assert_eq!(doc.window_title(), "Untitled.md - Piwrite");
    assert_eq!(doc.word_count(), 0);
    assert_eq!(doc.settings_path(), "/tmp/settings.json");
    assert!(!doc.modified);
}

#[test]
fn editing_marks_the_document_unsaved() {
    let mut doc = store();
    assert!(doc.set_text_from_editor("a\r\nb".to_string()));
    assert_eq!(doc.text, "a\nb");
    assert!(doc.modified);
    assert_eq!(doc.status, "Unsaved");
    assert_eq!(doc.window_title(), "* Untitled.md - Piwrite");
    assert!(!doc.set_text_from_editor("a\nb".to_string()));
    assert_eq!(doc.word_count(), 2);
}

#[test]
fn saving_records_the_file() {
    let mut doc = store();
    doc.set_text_from_editor("a\nb".to_string());
    assert!(doc.save_to("/tmp/x/notes.md", true).is_ok());
    assert!(!doc.modified);
    assert_eq!(doc.status, "Saved notes.md");
    assert_eq!(doc.path.as_deref(), Some("/tmp/x/notes.md"));
    assert_eq!(doc.last_known_file_contents.as_deref(), Some(&b"a\nb"[..]));
    assert_eq!(doc.settings().last_save_directory.as_deref(), Some("/tmp/x"));
    assert!(doc.contents_match_disk(Some(b"a\nb")));
    assert!(!doc.contents_match_disk(Some(b"other")));
    assert!(!doc.contents_match_disk(None));
    assert_eq!(doc.window_title(), "notes.md - Piwrite");
}

#[test]
fn failed_save_reports_and_changes_nothing() {
    let mut doc = store();
    doc.set_text_from_editor("x".to_string());
    let err = doc.save_to("/nowhere/notes.md", false).unwrap_err();
    assert_eq!(err.message, "Could not save notes.md.");
    assert!(doc.modified);
    assert!(doc.path.is_none());
    let err = doc.save_to("/", false).unwrap_err();
    assert_eq!(err.message, "Could not save file.");
}

#[test]
fn opening_reads_and_normalizes() {
    let mut doc = store();
    let err = doc.open_path("/tmp/a.md", None).unwrap_err();
    assert_eq!(err.message, "Could not open a.md.");
    assert!(doc.path.is_none());
    assert!(doc.open_path("/tmp/a.md", Some(b"x\r\ny".to_vec())).is_ok());
    assert_eq!(doc.text, "x\ny");
    assert_eq!(doc.status, "Opened a.md");
    assert!(!doc.modified);
    assert!(doc.contents_match_disk(Some(b"x\r\ny")));
    assert!(doc.open_path("/tmp/b.md", Some(vec![0x66, 0xff, 0x67])).is_ok());
    assert_eq!(doc.text, "f\u{fffd}g");
}

#[test]
fn keeping_the_local_version() {
    let mut doc = store();
    doc.keep_external_version(Some(b"disk".to_vec()));
    assert!(doc.last_known_file_contents.is_none());
    assert!(doc.modified);
    assert_eq!(doc.status, "Kept your version");
    doc.open_path("/tmp/a.md", Some(b"old".to_vec())).unwrap();
    doc.keep_external_version(Some(b"new".to_vec()));
    assert_eq!(doc.last_known_file_contents.as_deref(), Some(&b"new"[..]));
    doc.keep_external_version(None);
    assert!(doc.last_known_file_contents.is_none());
}

#[test]
fn recovery_snapshots_round_trip() {
    let mut doc = store();
    assert!(doc.recovery_snapshot().is_none());
    doc.open_path("/tmp/a.md", Some(b"hello".to_vec())).unwrap();
    doc.set_text_from_editor("hello world".to_string());
    let snapshot = doc.recovery_snapshot().unwrap();
    assert_eq!(snapshot.file_url.as_deref(), Some("file:///tmp/a.md"));
    assert_eq!(snapshot.text, "hello world");
    let mut fresh = store();
    fresh.restore_recovery(snapshot, Some(b"hello".to_vec()));
    assert_eq!(fresh.text, "hello world");
    assert_eq!(fresh.path.as_deref(), Some("/tmp/a.md"));
    assert!(fresh.modified);
    assert_eq!(fresh.status, "Recovered unsaved changes");
    assert!(fresh.contents_match_disk(Some(b"hello")));
}

#[test]
fn restoring_a_snapshot_without_a_file() {
    let mut doc = store();
    doc.restore_recovery(
        RecoverySnapshot { file_url: Some("http://x".into()), text: "a\rb".into() },
        Some(b"z".to_vec()),
    );
    assert_eq!(doc.text, "a\nb");
    assert!(doc.path.is_none());
    assert!(doc.last_known_file_contents.is_none());
}

#[test]
fn file_urls() {
    assert_eq!(file_url_to_path("file:///tmp/a.md").as_deref(), Some("/tmp/a.md"));
    assert_eq!(file_url_to_path("http://x"), None);
    assert_eq!(file_url_to_path("file:/"), None);
}

#[test]
fn window_geometry_is_kept_while_not_maximized() {
    let mut doc = store();
    doc.persist_window_geometry(10, 20, 800, 600, false);
    assert_eq!(doc.settings().window_x, Some(10));
    assert_eq!(doc.settings().window_height, 600);
    doc.persist_window_geometry(0, 0, 1, 1, true);
    assert_eq!(doc.settings().window_x, Some(10));
    assert_eq!(doc.settings().window_width, 800);
    assert!(doc.settings().maximized);
}

#[test]
fn suggested_save_paths() {
    let mut doc = store();
    doc.set_text_from_editor("Trip notes\nday one".to_string());
    assert_eq!(doc.suggested_save_path(false, "/home/u"), "/home/u/Trip notes.md");
    doc.save_to("/data/x.md", true).unwrap();
    assert_eq!(doc.suggested_save_path(false, "/home/u"), "/data/x.md");
    let mut other = DocumentStore::new(String::new(), doc.settings().clone());
    other.set_text_from_editor("Hi".to_string());
    assert_eq!(other.suggested_save_path(true, "/home/u"), "/data/Hi.md");
    assert_eq!(other.suggested_save_path(false, "/home/u"), "/home/u/Hi.md");
}

#[test]
fn file_names_of_odd_paths() {
    let mut doc = store();
    doc.save_to("/", true).unwrap();
    assert_eq!(doc.file_name(), "Untitled.md");
    doc.save_to("/tmp/dir/", true).unwrap();
    assert_eq!(doc.file_name(), "dir");
}

use piwrite::recovery::{claim_order, recovered_snapshot};
use piwrite::session::{
    external_change_action, external_change_message, next_search_index, replace_all_ci,
    replace_match, search_count_label, word_label, ExternalChange,
};
use piwrite::session::{
    after_discard, after_save, open_request, print_status, quit, recovery_write_due, startup,
    theme_check_due, PendingAction, Startup, WindowAction,
};
use piwrite::SearchMatch;
use piwrite::{RecoverySnapshot, SaveIcon};

#[test]
fn word_labels() {
    assert_eq!(word_label(1), "1 Word");
    assert_eq!(word_label(0), "0 Words");
    assert_eq!(word_label(42), "42 Words");
}

#[test]
fn external_changes() {
    assert_eq!(external_change_action(false, true), ExternalChange::Rewatch);
    assert_eq!(external_change_action(false, false), ExternalChange::Ask);
    assert_eq!(external_change_action(true, true), ExternalChange::Ask);
    assert_eq!(external_change_message(true, true), "This file was deleted on disk.");
    assert_eq!(
        external_change_message(false, true),
        "This file changed on disk and you have unsaved edits."
    );
    assert_eq!(external_change_message(false, false), "This file changed on disk.");
}

#[test]
fn search_index_wraps() {
    assert_eq!(next_search_index(0, -1, 3), 2);
    assert_eq!(next_search_index(2, 1, 3), 0);
    assert_eq!(next_search_index(-1, 1, 3), 0);
    assert_eq!(next_search_index(1, 1, 3), 2);
}

#[test]
fn replaces_all_matches() {
    assert_eq!(replace_all_ci("Hello hello", "HELLO", "bye"), "bye bye");
    assert_eq!(replace_all_ci("abc", "x", "y"), "abc");
    assert_eq!(replace_all_ci("aaa", "a", ""), "");
    assert_eq!(replace_all_ci("ab", "", "z"), "ab");
    assert_eq!(replace_all_ci("İx", "x", "y"), "İy");
    assert_eq!(replace_all_ci("Foo foo", "FOO", "x"), "x x");
    assert_eq!(replace_all_ci("aaa", "a", "aa"), "aaaaaa");
    assert_eq!(replace_all_ci("ÄB äb", "ÄB", "-"), "- -");
    assert_eq!(replace_all_ci("ΑΣ", "ας", "x"), "x");
    assert_eq!(replace_all_ci("ΑΣ", "Ασ", "x"), "ΑΣ");
}

#[test]
fn recovered_snapshots() {
    let blank = RecoverySnapshot { file_url: None, text: String::new() };
    assert!(recovered_snapshot(blank).is_none());
    let text_only = RecoverySnapshot { file_url: None, text: "t".into() };
    assert_eq!(recovered_snapshot(text_only).unwrap().text, "t");
    let file_only = RecoverySnapshot { file_url: Some("file:///a".into()), text: String::new() };
    assert!(recovered_snapshot(file_only).is_some());
}

#[test]
fn claims_orphaned_slots_first() {
    assert_eq!(claim_order(&vec![false, true, false, true]), vec![1, 3, 0, 2]);
    assert_eq!(claim_order(&vec![]), Vec::<usize>::new());
}

#[test]
fn save_icon_has_its_asset_path() {
    assert_eq!(SaveIcon::Save.path(), "icons/save.svg");
    assert_eq!(SaveIcon::Save, SaveIcon::Save.clone());
}

#[test]
fn search_count_labels() {
    assert_eq!(search_count_label(0, 0), "");
    assert_eq!(search_count_label(-1, 0), "");
    assert_eq!(search_count_label(-1, 3), "1 / 3");
    assert_eq!(search_count_label(0, 3), "1 / 3");
    assert_eq!(search_count_label(2, 3), "3 / 3");
    assert_eq!(search_count_label(9, 12), "10 / 12");
}

#[test]
fn replaces_the_current_match() {
    let m = SearchMatch { start: 6, end: 11 };
    assert_eq!(replace_match("Hello world", m, "there"), Some("Hello there".to_string()));
    assert_eq!(replace_match("Hello world!", m, ""), Some("Hello !".to_string()));
    assert_eq!(replace_match("Hello", m, "x"), None);
    let at_start = SearchMatch { start: 0, end: 2 };
    assert_eq!(replace_match("äbc", at_start, "a"), Some("abc".to_string()));
}

#[test]
fn opening_with_unsaved_changes_asks_first() {
    let (p, a) = open_request(PendingAction::Nothing, true, "/tmp/b.md".to_string());
    assert_eq!(p, PendingAction::Open("/tmp/b.md".to_string()));
    assert_eq!(a, WindowAction::AskToSave);
    let (p2, a2) = after_save(p.clone());
    assert_eq!(p2, PendingAction::Nothing);
    assert_eq!(a2, WindowAction::OpenFile("/tmp/b.md".to_string()));
    let (p3, a3) = after_discard(p);
    assert_eq!(p3, PendingAction::Nothing);
    assert_eq!(a3, WindowAction::OpenFile("/tmp/b.md".to_string()));
    let (p4, a4) = open_request(PendingAction::Close, false, "/tmp/c.md".to_string());
    assert_eq!(p4, PendingAction::Close);
    assert_eq!(a4, WindowAction::OpenFile("/tmp/c.md".to_string()));
}

#[test]
fn quitting_with_unsaved_changes_asks_once() {
    assert_eq!(
        quit(PendingAction::Nothing, false),
        (PendingAction::Nothing, WindowAction::CloseWindow)
    );
    let (p, a) = quit(PendingAction::Nothing, true);
    assert_eq!((p.clone(), a), (PendingAction::Close, WindowAction::AskToSave));
    assert_eq!(quit(p.clone(), true), (PendingAction::Close, WindowAction::CloseWindow));
    assert_eq!(after_save(p.clone()), (PendingAction::Close, WindowAction::CloseWindow));
    assert_eq!(after_discard(p), (PendingAction::Nothing, WindowAction::CloseWindow));
    assert_eq!(after_save(PendingAction::Nothing), (PendingAction::Nothing, WindowAction::Nothing));
    assert_eq!(
        after_discard(PendingAction::Nothing),
        (PendingAction::Nothing, WindowAction::Nothing)
    );
}

#[test]
fn print_statuses() {
    assert_eq!(print_status("a.md", false, false, false), "There is no document to print.");
    assert_eq!(print_status("a.md", true, true, false), "Printed a.md");
    assert_eq!(print_status("a.md", true, false, true), "Opened print preview for a.md");
    assert_eq!(print_status("a.md", true, false, false), "Could not print.");
}

#[test]
fn a_recovered_draft_wins_over_the_path() {
    let draft = RecoverySnapshot { file_url: None, text: "draft".to_string() };
    match startup(Some(draft), Some("/tmp/a.md".to_string())) {
        Startup::RestoreDraft(d) => assert_eq!(d.text, "draft"),
        other => panic!("expected the draft, got {:?}", other),
    }
    match startup(None, Some("/tmp/a.md".to_string())) {
        Startup::OpenFile(p) => assert_eq!(p, "/tmp/a.md"),
        other => panic!("expected the file, got {:?}", other),
    }
    assert!(matches!(startup(None, None), Startup::StartEmpty));
}

#[test]
fn periodic_work_is_throttled() {
    assert!(!theme_check_due(400_000_000));
    assert!(theme_check_due(400_000_001));
    assert!(!recovery_write_due(true, 750_000_000));
    assert!(recovery_write_due(true, 750_000_001));
    assert!(!recovery_write_due(false, u64::MAX));
}

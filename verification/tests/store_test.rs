use gh_reply::store::DraftStore;
use gh_reply::types::DraftEntry;

fn entry(body: &str, resolve: Option<bool>) -> DraftEntry {
    DraftEntry {
        body: body.to_string(),
        path: None,
        line: None,
        original_comment: None,
        resolve,
        timestamp: "2024-01-01T00:00:00Z".to_string(),
    }
}

#[test]
fn test_add_and_get_draft() {
    let mut store = DraftStore::default();

    let draft = DraftEntry {
        body: "Test message".to_string(),
        path: None,
        line: None,
        original_comment: None,
        resolve: Some(true),
        timestamp: "2024-01-01T00:00:00Z".to_string(),
    };

    store.add_draft(123, "thread-1", draft.clone());

    let retrieved = store.get_draft(123, "thread-1");
    assert!(retrieved.is_some());
    assert_eq!(retrieved.unwrap().body, "Test message");
}

#[test]
fn test_get_nonexistent_draft() {
    let store = DraftStore::default();

    let result = store.get_draft(999, "nonexistent");
    assert!(result.is_none());
}

#[test]
fn test_get_all_drafts() {
    let mut store = DraftStore::default();

    let draft1 = entry("Message 1", None);
    let draft2 = entry("Message 2", None);

    store.add_draft(123, "thread-1", draft1);
    store.add_draft(123, "thread-2", draft2);

    let all_drafts = store.get_all_drafts(123);
    assert_eq!(all_drafts.len(), 2);
    assert!(all_drafts.iter().any(|p| p.0 == "thread-1"));
    assert!(all_drafts.iter().any(|p| p.0 == "thread-2"));
}

#[test]
fn test_remove_draft() {
    let mut store = DraftStore::default();

    let draft = entry("Test message", None);

    store.add_draft(123, "thread-1", draft);

    // Remove draft
    let removed = store.remove_draft(123, "thread-1");
    assert!(removed);

    // Verify it's gone
    let result = store.get_draft(123, "thread-1");
    assert!(result.is_none());
}

#[test]
fn test_clear_drafts() {
    let mut store = DraftStore::default();

    let draft1 = entry("Message 1", None);
    let draft2 = entry("Message 2", None);

    store.add_draft(123, "thread-1", draft1);
    store.add_draft(123, "thread-2", draft2);

    // Clear all drafts for PR 123
    store.clear_drafts(123);

    let all_drafts = store.get_all_drafts(123);
    assert_eq!(all_drafts.len(), 0);
}

#[test]
fn test_multiple_prs() {
    let mut store = DraftStore::default();

    let draft1 = entry("PR 123", None);
    let draft2 = entry("PR 456", None);

    store.add_draft(123, "thread-1", draft1);
    store.add_draft(456, "thread-1", draft2);

    // Verify both PRs have drafts
    assert_eq!(store.get_all_drafts(123).len(), 1);
    assert_eq!(store.get_all_drafts(456).len(), 1);

    // Clear drafts for PR 123
    store.clear_drafts(123);

    // PR 123 should be empty, PR 456 should still have drafts
    assert_eq!(store.get_all_drafts(123).len(), 0);
    assert_eq!(store.get_all_drafts(456).len(), 1);
}

#[test]
fn test_add_same_key_overwrites() {
    // Two drafts staged under one (pr, thread) leave one entry, the later.
    let mut store = DraftStore::default();
    store.add_draft(7, "t", entry("first", None));
    store.add_draft(7, "t", entry("second", Some(true)));

    let all = store.get_all_drafts(7);
    assert_eq!(all.len(), 1);
    assert_eq!(all[0].0, "t");
    assert_eq!(all[0].1.body, "second");
    assert_eq!(all[0].1.resolve, Some(true));
}

#[test]
fn test_save_load_round_trip() {
    // A freshly populated store survives save and load unchanged.
    let mut store = DraftStore::default();
    let full = DraftEntry {
        body: "needs a \"quote\" and a\nnewline\ttab \\ backslash".to_string(),
        path: Some("src/lib.rs".to_string()),
        line: Some(42),
        original_comment: Some("the original".to_string()),
        resolve: Some(false),
        timestamp: "2024-01-01T00:00:00Z".to_string(),
    };
    store.add_draft(123, "thread-1", full.clone());
    store.add_draft(123, "thread-2", entry("plain", None));
    store.add_draft(456, "thread-1", entry("other pr", Some(true)));

    let text = store.save();
    let reloaded = DraftStore::load(Some(text.as_str())).expect("reload");

    let e = reloaded.get_draft(123, "thread-1").expect("entry");
    assert_eq!(e.body, full.body);
    assert_eq!(e.path, full.path);
    assert_eq!(e.line, full.line);
    assert_eq!(e.original_comment, full.original_comment);
    assert_eq!(e.resolve, full.resolve);
    assert_eq!(e.timestamp, full.timestamp);
    assert_eq!(reloaded.get_all_drafts(123).len(), 2);
    assert_eq!(reloaded.get_all_drafts(456).len(), 1);

    // And a second save yields the same document.
    assert_eq!(reloaded.save(), text);
}

#[test]
fn test_load_missing_file_is_empty() {
    let store = DraftStore::load(None).expect("empty");
    assert_eq!(store.get_all_drafts(1).len(), 0);
}

#[test]
fn test_load_malformed_is_error() {
    let r = DraftStore::load(Some("{ not json"));
    assert!(r.is_err());
    let r2 = DraftStore::load(Some("{\"abc\":{}}"));
    assert!(r2.is_err());
    let r3 = DraftStore::load(Some("[1,2]"));
    assert!(r3.is_err());
}

use gh_reply::commands::{RemoteAction, find_thread, list_threads, make_draft_entry,
    plan_draft_send, plan_reply, plan_send_dry_run, resolve_thread_id};
use gh_reply::context::ContextBuilder;
use gh_reply::client::GhClient;
use gh_reply::json::parse_document;
use gh_reply::store::DraftStore;
use gh_reply::types::{BaseReplyContext, ReplyContext, ReviewThread};
use gh_reply::vars::TemplateExpander;

fn thread(id: &str, resolved: bool) -> ReviewThread {
    ReviewThread {
        id: id.to_string(),
        path: "src/x.rs".to_string(),
        line: None,
        diff_side: None,
        body: "first comment".to_string(),
        is_resolved: resolved,
    }
}

fn base(author: &str) -> BaseReplyContext {
    BaseReplyContext {
        repo_owner: "owner".to_string(),
        repo_name: "repo".to_string(),
        pr_number: "123".to_string(),
        date: "2024-01-01".to_string(),
        username: "user".to_string(),
        repo_url: "https://github.com/owner/repo".to_string(),
        base_branch: "main".to_string(),
        head_branch: "feature".to_string(),
        pr_title: "Test PR".to_string(),
        author: author.to_string(),
        local_commit: "abc123".to_string(),
    }
}

#[test]
fn test_resolve_thread_id_by_id() {
    let threads = vec![thread("T1", false), thread("T2", false)];
    let r = resolve_thread_id(&threads, Some("THREAD_123"), None).unwrap();
    assert_eq!(r, "THREAD_123");
}

#[test]
fn test_resolve_thread_id_by_index() {
    let threads = vec![thread("T1", false), thread("T2", false)];
    assert_eq!(resolve_thread_id(&threads, None, Some(1)).unwrap(), "T1");
    assert_eq!(resolve_thread_id(&threads, None, Some(2)).unwrap(), "T2");
}

#[test]
fn test_resolve_thread_id_range_errors() {
    // Index zero and an index past the end both name the valid range.
    let threads = vec![thread("T1", false), thread("T2", false)];
    let low = resolve_thread_id(&threads, None, Some(0)).unwrap_err();
    assert_eq!(low.message().as_str(), "Thread index 0 is out of range (1-2)");
    let high = resolve_thread_id(&threads, None, Some(3)).unwrap_err();
    assert_eq!(high.message().as_str(), "Thread index 3 is out of range (1-2)");
}

#[test]
fn test_resolve_thread_id_both_or_neither() {
    let threads = vec![thread("T1", false)];
    let both = resolve_thread_id(&threads, Some("T1"), Some(1)).unwrap_err();
    assert_eq!(both.message().as_str(), "Cannot specify both thread_id and index");
    let neither = resolve_thread_id(&threads, None, None).unwrap_err();
    assert_eq!(neither.message().as_str(), "Must specify either thread_id or --index");
}

#[test]
fn test_find_thread() {
    let threads = vec![thread("T1", false), thread("T2", true)];
    assert!(find_thread(&threads, "T2").is_some());
    assert!(find_thread(&threads, "T9").is_none());
}

#[test]
fn test_list_threads_filters_resolved() {
    let threads = vec![thread("T1", false), thread("T2", true), thread("T3", false)];
    let unresolved = list_threads(&threads, false, None, None, None, 1, 10).unwrap();
    let ids: Vec<&str> = unresolved.iter().map(|t| t.id.as_str()).collect();
    assert_eq!(ids, vec!["T1", "T3"]);
    let all = list_threads(&threads, true, None, None, None, 1, 10).unwrap();
    assert_eq!(all.len(), 3);
}

#[test]
fn test_list_threads_paginates() {
    let threads: Vec<ReviewThread> = (1..=5).map(|i| thread(&format!("T{}", i), false)).collect();
    let page2 = list_threads(&threads, false, None, None, None, 2, 2).unwrap();
    let ids: Vec<&str> = page2.iter().map(|t| t.id.as_str()).collect();
    assert_eq!(ids, vec!["T3", "T4"]);
    let page3 = list_threads(&threads, false, None, None, None, 3, 2).unwrap();
    assert_eq!(page3.len(), 1);
    let beyond = list_threads(&threads, false, None, None, None, 9, 2).unwrap();
    assert_eq!(beyond.len(), 0);
}

#[test]
fn test_list_threads_unimplemented_options() {
    let threads = vec![thread("T1", false)];
    let e = list_threads(&threads, false, Some("bug"), None, None, 1, 10).unwrap_err();
    assert_eq!(e.message().as_str(), "Option --label is not yet implemented");
    let e2 = list_threads(&threads, false, None, Some("author:x"), None, 1, 10).unwrap_err();
    assert_eq!(e2.message().as_str(), "Option --comment-filter is not yet implemented");
    let e3 = list_threads(&threads, false, None, None, Some("url"), 1, 10).unwrap_err();
    assert_eq!(e3.message().as_str(), "Option --detail is not yet implemented");
}

#[test]
fn test_plan_reply_posts_then_resolves() {
    let ctx = ReplyContext { base: base("alice"), reply_to: "bob".to_string() };
    let (msg, acts) = plan_reply(123, "T1", "hi {{reply_to}}", &ctx, true, false);
    assert_eq!(msg, "hi bob");
    assert_eq!(acts.len(), 2);
    match &acts[0] {
        RemoteAction::PostReply { pr_number, thread_id, body } => {
            assert_eq!(*pr_number, 123);
            assert_eq!(thread_id, "T1");
            assert_eq!(body, "hi bob");
        }
        _ => panic!("expected a post"),
    }
    match &acts[1] {
        RemoteAction::ResolveThread { thread_id } => assert_eq!(thread_id, "T1"),
        _ => panic!("expected a resolve"),
    }
}

#[test]
fn test_plan_reply_dry_run_plans_nothing() {
    // A dry run produces zero remote mutation actions.
    let ctx = ReplyContext { base: base("alice"), reply_to: "bob".to_string() };
    let (msg, acts) = plan_reply(123, "T1", "hi {{reply_to}}", &ctx, true, true);
    assert_eq!(msg, "hi bob");
    assert!(acts.is_empty());
}

#[test]
fn test_plan_draft_send_skips_empty_unless_forced() {
    let b = base("alice");
    let empty = make_draft_entry("", false, "2024-01-01T00:00:00Z");
    assert!(plan_draft_send(123, "T1", &empty, &b, "bob", false).is_none());
    let forced = plan_draft_send(123, "T1", &empty, &b, "bob", true).unwrap();
    assert_eq!(forced.0, "");
    assert_eq!(forced.1.len(), 1);
}

#[test]
fn test_send_scenario_end_to_end() {
    // Stage a draft for one of two unresolved threads, inspect it
    // unexpanded, send it expanded, and end with an empty store.
    let mut store = DraftStore::default();
    let entry = make_draft_entry("ping {{author}}", false, "2024-01-01T00:00:00Z");
    store.add_draft(123, "T1", entry);

    let shown = store.get_all_drafts(123);
    assert_eq!(shown.len(), 1);
    assert_eq!(shown[0].0, "T1");
    assert_eq!(shown[0].1.body, "ping {{author}}");

    let b = base("alice");
    let mut posted: Vec<(u32, String, String)> = Vec::new();
    for (tid, draft) in store.get_all_drafts(123) {
        let planned = plan_draft_send(123, &tid, &draft, &b, &tid, false).unwrap();
        for act in planned.1 {
            if let RemoteAction::PostReply { pr_number, thread_id, body } = act {
                posted.push((pr_number, thread_id, body));
            }
        }
        store.remove_draft(123, &tid);
    }
    assert_eq!(posted.len(), 1);
    assert_eq!(posted[0].0, 123);
    assert_eq!(posted[0].1, "T1");
    assert_eq!(posted[0].2, "ping alice");
    assert_eq!(store.get_all_drafts(123).len(), 0);
}

#[test]
fn test_send_dry_run_leaves_store_unchanged() {
    // The dry-run listing plans no action and the store keeps its draft.
    let mut store = DraftStore::default();
    store.add_draft(123, "thread-1", make_draft_entry("Test message", true, "t0"));
    let listing = plan_send_dry_run(&store.get_all_drafts(123));
    assert_eq!(listing.len(), 1);
    assert_eq!(listing[0].0, "thread-1");
    assert_eq!(listing[0].1, "Test message");
    assert!(listing[0].2);
    assert_eq!(store.get_all_drafts(123).len(), 1);
}

#[test]
fn test_build_base_context() {
    let builder = ContextBuilder::new(GhClient::new(None));
    let details = parse_document(
        "{\"title\":\"Test PR\",\"baseRefName\":\"main\",\"headRefName\":\"feature\",\
\"author\":{\"login\":\"author\"},\"headRefOid\":\"ffff\"}",
    )
    .unwrap();
    let ctx = builder.build_base_context(
        "123", "owner", "repo", &details, "", "localuser", "2024-01-01", "abc123",
    );
    assert_eq!(ctx.pr_number, "123");
    assert_eq!(ctx.username, "localuser");
    assert_eq!(ctx.repo_url, "https://github.com/owner/repo");
    assert_eq!(ctx.base_branch, "main");
    assert_eq!(ctx.head_branch, "feature");
    assert_eq!(ctx.pr_title, "Test PR");
    assert_eq!(ctx.author, "author");

    let expander = TemplateExpander::from_context(
        &builder.build_reply_context(ctx, "carol".to_string()),
    );
    assert_eq!(
        expander.expand("{{username}}/{{reply_to}}").unwrap(),
        "localuser/carol"
    );
}

#[test]
fn test_get_reply_to_author() {
    let builder = ContextBuilder::new(GhClient::new(None));
    assert_eq!(builder.get_reply_to_author("main", None), "main");
    let resp = parse_document(
        "{\"data\":{\"node\":{\"comments\":{\"nodes\":[{\"author\":{\"login\":\"ann\"}}]}}}}",
    )
    .unwrap();
    assert_eq!(builder.get_reply_to_author("T1", Some(&resp)), "ann");
    assert_eq!(builder.get_reply_to_author("T1", None), "T1");
    let empty = parse_document("{\"data\":{\"node\":null}}").unwrap();
    assert_eq!(builder.get_reply_to_author("T1", Some(&empty)), "T1");
}

#[test]
fn test_make_draft_entry() {
    let e = make_draft_entry("hello", true, "2024-01-01T00:00:00Z");
    assert_eq!(e.body, "hello");
    assert_eq!(e.resolve, Some(true));
    assert_eq!(e.timestamp, "2024-01-01T00:00:00Z");
    assert!(e.path.is_none() && e.line.is_none() && e.original_comment.is_none());
    let plain = make_draft_entry("x", false, "t");
    assert_eq!(plain.resolve, None);
}

#[test]
fn test_current_timestamp_runs() {
    let t = gh_reply::context::current_timestamp();
    assert!(!t.is_empty());
}

use gh_reply::client::{AttemptOutcome, GhClient, ThreadsPage, backoff_delay, draw_jitter,
    graphql_query_arg, graphql_request_body, graphql_result, normalize_query, parse_threads_page,
    post_reply_request, resolve_thread_request, retry_decision, run_pagination, run_retry_policy,
    threads_query};
use gh_reply::error::GhReplyError;
use gh_reply::json::{JsonValue, parse_document, render_document};
use gh_reply::types::ReviewThread;

fn thread(id: &str, resolved: bool) -> ReviewThread {
    ReviewThread {
        id: id.to_string(),
        path: "src/x.rs".to_string(),
        line: Some(1),
        diff_side: None,
        body: "first".to_string(),
        is_resolved: resolved,
    }
}

#[test]
fn test_get_repo_info_with_override() {
    let client = GhClient::new(Some("owner/repo".to_string()));
    let result = client.get_repo_info(None, None);
    assert!(result.is_ok());
    let (owner, name) = result.unwrap();
    assert_eq!(owner, "owner");
    assert_eq!(name, "repo");
}

#[test]
fn test_get_repo_info_invalid_override() {
    let client = GhClient::new(Some("invalid".to_string()));
    let result = client.get_repo_info(None, None);
    assert!(result.is_err());
    assert!(result.unwrap_err().message().contains("Invalid repo override"));
}

#[test]
fn test_get_repo_info_from_platform_view() {
    let client = GhClient::new(None);
    let view = parse_document("{\"owner\":{\"login\":\"test-owner\"},\"name\":\"test-repo\"}")
        .unwrap();
    let (owner, name) = client.get_repo_info(Some(&view), None).unwrap();
    assert_eq!(owner, "test-owner");
    assert_eq!(name, "test-repo");
}

#[test]
fn test_get_repo_info_from_remote_url() {
    let client = GhClient::new(None);
    let (o1, n1) = client
        .get_repo_info(None, Some("git@github.com:owner/repo.git"))
        .unwrap();
    assert_eq!(o1, "owner");
    assert_eq!(n1, "repo");
    let (o2, n2) = client
        .get_repo_info(None, Some("https://github.com/some-org/some-repo"))
        .unwrap();
    assert_eq!(o2, "some-org");
    assert_eq!(n2, "some-repo");
    assert!(client.get_repo_info(None, Some("nonsense")).is_err());
    assert!(client.get_repo_info(None, None).is_err());
}

#[test]
fn test_get_authenticated_user() {
    let client = GhClient::new(None);
    let view = parse_document("{\"login\":\"testuser\"}").unwrap();
    assert_eq!(client.get_authenticated_user(Some(&view)), "testuser");
    assert_eq!(client.get_authenticated_user(None), "");
}

#[test]
fn test_normalize_query() {
    assert_eq!(normalize_query("query  {\n  test \t}  "), "query { test }");
    assert_eq!(normalize_query("   "), "");
    assert_eq!(graphql_query_arg("a  b"), "query=a b");
}

#[test]
fn test_graphql_request_body() {
    let vars = parse_document("{\"id\":\"123\"}").unwrap();
    let body = graphql_request_body("query($id: ID!) {\n test(id: $id) }", vars);
    assert_eq!(
        body,
        "{\"query\":\"query($id: ID!) { test(id: $id) }\",\"variables\":{\"id\":\"123\"}}"
    );
}

#[test]
fn test_graphql_result_passes_data() {
    let v = parse_document("{\"data\":{\"test\":true}}").unwrap();
    let out = graphql_result(v).unwrap();
    assert_eq!(render_document(&out), "{\"data\":{\"test\":true}}");
}

#[test]
fn test_graphql_result_error_envelope() {
    let v = parse_document("{\"errors\":[{\"message\":\"bad\"}]}").unwrap();
    let e = graphql_result(v).unwrap_err();
    assert!(e.message().starts_with("GraphQL errors: "));
    assert!(e.message().contains("bad"));
}

#[test]
fn test_retry_two_failures_then_success() {
    // Failing exactly twice then succeeding uses exactly three attempts.
    let ok = parse_document("{\"data\":1}").unwrap();
    let outcomes = vec![
        AttemptOutcome::Failure(GhReplyError::GhError("one".to_string())),
        AttemptOutcome::Failure(GhReplyError::GhError("two".to_string())),
        AttemptOutcome::Success(ok),
    ];
    let (used, result) = run_retry_policy(outcomes);
    assert_eq!(used, 3);
    assert_eq!(render_document(&result.unwrap()), "{\"data\":1}");
}

#[test]
fn test_retry_all_failures_returns_last() {
    let outcomes = vec![
        AttemptOutcome::Failure(GhReplyError::GhError("one".to_string())),
        AttemptOutcome::Failure(GhReplyError::GhError("two".to_string())),
        AttemptOutcome::Failure(GhReplyError::GhError("three".to_string())),
    ];
    let (used, result) = run_retry_policy(outcomes);
    assert_eq!(used, 3);
    assert_eq!(result.unwrap_err().message().as_str(), "three");
}

#[test]
fn test_retry_first_success_stops() {
    let ok = parse_document("7").unwrap();
    let outcomes = vec![
        AttemptOutcome::Success(ok),
        AttemptOutcome::Failure(GhReplyError::GhError("x".to_string())),
        AttemptOutcome::Failure(GhReplyError::GhError("y".to_string())),
    ];
    let (used, result) = run_retry_policy(outcomes);
    assert_eq!(used, 1);
    assert!(result.is_ok());
}

#[test]
fn test_retry_decision_windows() {
    assert_eq!(retry_decision(1), Some(1000));
    assert_eq!(retry_decision(2), Some(2000));
    assert_eq!(retry_decision(3), None);
    let d = backoff_delay(1, draw_jitter());
    assert!(d < 1000);
    assert_eq!(backoff_delay(2, 4567), 4567 % 2000);
}

#[test]
fn test_pagination_collects_pages_in_order() {
    // N pages: exactly N queries, nodes concatenated in page order.
    let pages = vec![
        ThreadsPage {
            nodes: vec![thread("T1", false), thread("T2", true)],
            has_next_page: true,
            end_cursor: Some("c1".to_string()),
        },
        ThreadsPage {
            nodes: vec![thread("T3", false)],
            has_next_page: false,
            end_cursor: None,
        },
    ];
    let (threads, queries) = run_pagination(pages);
    assert_eq!(queries, 2);
    let ids: Vec<&str> = threads.iter().map(|t| t.id.as_str()).collect();
    assert_eq!(ids, vec!["T1", "T2", "T3"]);
}

#[test]
fn test_parse_threads_page() {
    let text = "{\"data\":{\"repository\":{\"pullRequest\":{\"reviewThreads\":{\
\"pageInfo\":{\"hasNextPage\":true,\"endCursor\":\"abc\"},\
\"nodes\":[{\"id\":\"T1\",\"isResolved\":false,\"path\":\"a.rs\",\"line\":7,\
\"diffSide\":\"RIGHT\",\"comments\":{\"nodes\":[{\"body\":\"hi\",\"author\":{\"login\":\"ann\"}}]}},\
{\"id\":\"T2\",\"isResolved\":true,\"path\":\"b.rs\",\"line\":null,\
\"comments\":{\"nodes\":[]}}]}}}}}";
    let v = parse_document(text).unwrap();
    let page = parse_threads_page(&v).unwrap();
    assert!(page.has_next_page);
    assert_eq!(page.end_cursor.as_deref(), Some("abc"));
    assert_eq!(page.nodes.len(), 2);
    assert_eq!(page.nodes[0].id, "T1");
    assert_eq!(page.nodes[0].line, Some(7));
    assert_eq!(page.nodes[0].diff_side.as_deref(), Some("RIGHT"));
    assert_eq!(page.nodes[0].body, "hi");
    assert!(!page.nodes[0].is_resolved);
    assert_eq!(page.nodes[1].id, "T2");
    assert_eq!(page.nodes[1].line, None);
    assert_eq!(page.nodes[1].body, "");
    assert!(page.nodes[1].is_resolved);
}

#[test]
fn test_parse_threads_page_rejects_missing_nodes() {
    let v = parse_document("{\"data\":{}}").unwrap();
    let e = parse_threads_page(&v).unwrap_err();
    assert_eq!(e.message().as_str(), "Invalid response structure");
}

#[test]
fn test_threads_query_shapes() {
    let q = threads_query("o", "r", 42, &None);
    assert!(q.contains("repository(owner: \"o\", name: \"r\")"));
    assert!(q.contains("pullRequest(number: 42)"));
    assert!(!q.contains("after:"));
    let q2 = threads_query("o", "r", 42, &Some("cur".to_string()));
    assert!(q2.contains("reviewThreads(first: 100, after: \"cur\")"));
}

#[test]
fn test_mutation_requests() {
    let (q, vars) = post_reply_request("T1", "hello");
    assert!(q.contains("addPullRequestReviewThreadReply"));
    assert_eq!(
        render_document(&vars),
        "{\"threadId\":\"T1\",\"body\":\"hello\"}"
    );
    let (q2, vars2) = resolve_thread_request("T1");
    assert!(q2.contains("resolveReviewThread"));
    assert_eq!(render_document(&vars2), "{\"threadId\":\"T1\"}");
}

#[test]
fn test_json_parse_render_round_trip() {
    let text = "{\"a\":[1,-2,true,null,\"x\\ny\"],\"b\":{\"c\":\"\"}}";
    let v = parse_document(text).unwrap();
    assert_eq!(render_document(&v), text);
}

#[test]
fn test_json_parse_errors() {
    assert!(parse_document("{").is_err());
    assert!(parse_document("1 2").is_err());
    assert!(parse_document("01").is_err());
    assert!(parse_document("1.5").is_err());
    assert!(parse_document("").is_err());
    match parse_document("nope") {
        Err(GhReplyError::JsonError(_)) => {}
        _ => panic!("expected a document error"),
    }
}

#[test]
fn test_json_whitespace_tolerated() {
    let v = parse_document(" { \"a\" : [ 1 , 2 ] } ").unwrap();
    assert_eq!(render_document(&v), "{\"a\":[1,2]}");
}

#[test]
fn test_json_string_escapes() {
    let v = parse_document("\"a\\u0007b\\\\c\\\"d\"").unwrap();
    match &v {
        JsonValue::Str(s) => assert_eq!(s.as_str(), "a\u{7}b\\c\"d"),
        _ => panic!("expected a string"),
    }
}

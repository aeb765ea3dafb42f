use gh_reply::types::{BaseReplyContext, ReplyContext};
use gh_reply::vars::TemplateExpander;

#[test]
fn test_expand_simple_variable() {
    let mut expander = TemplateExpander::new();
    expander.add_var("name", "World");

    let result = expander.expand("Hello {{name}}!").unwrap();
    assert_eq!(result, "Hello World!");
}

#[test]
fn test_expand_multiple_variables() {
    let mut expander = TemplateExpander::new();
    expander.add_var("greeting", "Hello");
    expander.add_var("name", "World");

    let result = expander.expand("{{greeting}} {{name}}!").unwrap();
    assert_eq!(result, "Hello World!");
}

#[test]
fn test_expand_with_whitespace() {
    let mut expander = TemplateExpander::new();
    expander.add_var("name", "World");

    // Test various whitespace patterns
    assert_eq!(expander.expand("{{ name }}").unwrap(), "World");
    assert_eq!(expander.expand("{{name}}").unwrap(), "World");
    assert_eq!(expander.expand("{{  name  }}").unwrap(), "World");
}

#[test]
fn test_expand_undefined_variable() {
    let expander = TemplateExpander::new();

    // Undefined variables are replaced with the empty string
    let result = expander.expand("Hello {{unknown}}!").unwrap();
    assert_eq!(result, "Hello !");
}

#[test]
fn test_expand_same_variable_multiple_times() {
    let mut expander = TemplateExpander::new();
    expander.add_var("x", "1");
    expander.add_var("result", "2");

    let result = expander.expand("{{x}} + {{x}} = {{result}}").unwrap();
    assert_eq!(result, "1 + 1 = 2");
}

#[test]
fn test_expand_empty_template() {
    let mut expander = TemplateExpander::new();
    expander.add_var("name", "World");

    let result = expander.expand("").unwrap();
    assert_eq!(result, "");
}

#[test]
fn test_expand_no_variables() {
    let expander = TemplateExpander::new();

    let result = expander.expand("Hello World!").unwrap();
    assert_eq!(result, "Hello World!");
}

#[test]
fn test_expand_with_underscore() {
    let mut expander = TemplateExpander::new();
    expander.add_var("first_name", "John");
    expander.add_var("last_name", "Doe");

    let result = expander.expand("{{first_name}} {{last_name}}").unwrap();
    assert_eq!(result, "John Doe");
}

#[test]
fn test_expand_with_numbers() {
    let mut expander = TemplateExpander::new();
    expander.add_var("var1", "a");
    expander.add_var("var2", "b");

    let result = expander.expand("{{var1}} {{var2}}").unwrap();
    assert_eq!(result, "a b");
}

#[test]
fn test_from_context() {
    let base = BaseReplyContext {
        repo_owner: "owner".to_string(),
        repo_name: "repo".to_string(),
        pr_number: "123".to_string(),
        date: "2024-01-01".to_string(),
        username: "user".to_string(),
        repo_url: "https://github.com/owner/repo".to_string(),
        base_branch: "main".to_string(),
        head_branch: "feature".to_string(),
        pr_title: "Test PR".to_string(),
        author: "author".to_string(),
        local_commit: "abc123".to_string(),
    };

    let context = ReplyContext {
        base,
        reply_to: "carol".to_string(),
    };

    let expander = TemplateExpander::from_context(&context);

    let result = expander.expand("PR #{{pr_number}} by {{author}}").unwrap();
    assert_eq!(result, "PR #123 by author");
}

#[test]
fn test_expand_every_occurrence() {
    // Every occurrence of the same placeholder expands identically.
    let mut expander = TemplateExpander::new();
    expander.add_var("x", "1");
    expander.add_var("y", "2");

    let result = expander.expand("{{x}} + {{x}} = {{y}}").unwrap();
    assert_eq!(result, "1 + 1 = 2");
}

#[test]
fn test_expand_unknown_placeholder_vanishes() {
    // Unknown placeholders vanish rather than erring.
    let expander = TemplateExpander::new();
    let result = expander.expand("Hi {{nope}}!").unwrap();
    assert_eq!(result, "Hi !");
}

#[test]
fn test_expand_identity_without_syntax() {
    // No placeholder syntax at all: expansion is the identity.
    let mut expander = TemplateExpander::new();
    expander.add_var("name", "World");
    let samples = vec![
        "plain text",
        "single { brace } pair",
        "} closing first {",
        "almost {_{name}} but not",
    ];
    for s in samples {
        assert_eq!(expander.expand(s).unwrap(), s);
    }
}

#[test]
fn test_expand_malformed_left_alone() {
    // Malformed placeholders are copied through unchanged.
    let mut expander = TemplateExpander::new();
    expander.add_var("name", "World");
    assert_eq!(expander.expand("{{name").unwrap(), "{{name");
    assert_eq!(expander.expand("{{ na me }}").unwrap(), "{{ na me }}");
    assert_eq!(expander.expand("{{}}").unwrap(), "{{}}");
}

#[test]
fn test_expand_no_recursive_expansion() {
    // A substituted value is never re-scanned for further placeholders.
    let mut expander = TemplateExpander::new();
    expander.add_var("a", "{{b}}");
    expander.add_var("b", "deep");
    assert_eq!(expander.expand("{{a}}").unwrap(), "{{b}}");
}

#[test]
fn test_expand_last_binding_wins() {
    let mut expander = TemplateExpander::new();
    expander.add_var("k", "first");
    expander.add_var("k", "second");
    assert_eq!(expander.expand("{{k}}").unwrap(), "second");
}

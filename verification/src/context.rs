//! Reply-context assembly: the per-pull-request base fields and the
//! per-thread reply target, computed from values the transport fetched.

use vstd::prelude::*;
use vstd::string::{StringExecFns, StrSliceExecFns};
use crate::client::{GhClient, j_get, j_get_o, j_str, j_str_or_empty, first_elem, view_of_opt};
use crate::json::{JsonValue, JsonV};
use crate::types::{BaseReplyContext, ReplyContext};

verus! {

/// Builds reply contexts for one client.
pub struct ContextBuilder {
    client: GhClient,
}

/// The reply target taken from a thread-lookup response: the login of
/// the thread's first comment's author, with the raw target standing
/// in when the target is the pull-request pseudo-thread `main`, the
/// lookup failed, or the response lacks the author.
pub open spec fn reply_to_spec(target: Seq<char>, response: Option<JsonV>) -> Seq<char> {
    if target == "main"@ {
        target
    } else {
        match response {
            Option::Some(j) => match j_str(
                j_get_o(
                    j_get_o(
                        first_elem(
                            j_get_o(
                                j_get_o(j_get_o(j_get(j, "data"@), "node"@), "comments"@),
                                "nodes"@,
                            ),
                        ),
                        "author"@,
                    ),
                    "login"@,
                ),
            ) {
                Option::Some(login) => login,
                Option::None => target,
            },
            Option::None => target,
        }
    }
}

impl ContextBuilder {
    /// A builder around the given client.
    pub fn new(client: GhClient) -> (r: Self)
        ensures
            r.client_spec() == client.repo_spec(),
    {
        ContextBuilder { client }
    }

    /// The client's repository override.
    pub closed spec fn client_spec(&self) -> Option<Seq<char>> {
        self.client.repo_spec()
    }

    /// Assemble the base context from the values one fetch round
    /// yields: repository coordinates, the pull request's details, the
    /// authenticated login (the local username standing in when it is
    /// empty), the current date, and the local commit hash.
    pub fn build_base_context(
        &self,
        pr_number: &str,
        repo_owner: &str,
        repo_name: &str,
        pr_details: &JsonValue,
        auth_user: &str,
        os_username: &str,
        date: &str,
        local_commit: &str,
    ) -> (r: BaseReplyContext)
        ensures
            r.repo_owner@ == repo_owner@,
            r.repo_name@ == repo_name@,
            r.pr_number@ == pr_number@,
            r.date@ == date@,
            r.username@ == if auth_user@.len() > 0 {
                auth_user@
            } else {
                os_username@
            },
            r.repo_url@ == "https://github.com/"@ + repo_owner@ + "/"@ + repo_name@,
            r.base_branch@ == j_str_or_empty(j_get(pr_details@, "baseRefName"@)),
            r.head_branch@ == j_str_or_empty(j_get(pr_details@, "headRefName"@)),
            r.pr_title@ == j_str_or_empty(j_get(pr_details@, "title"@)),
            r.author@ == j_str_or_empty(j_get_o(j_get(pr_details@, "author"@), "login"@)),
            r.local_commit@ == local_commit@,
    {
        let mut repo_url = String::from_str("https://github.com/");
        repo_url.append(repo_owner);
        repo_url.append("/");
        repo_url.append(repo_name);
        let username = if auth_user.unicode_len() > 0 {
            String::from_str(auth_user)
        } else {
            String::from_str(os_username)
        };
        let base_branch = str_field(pr_details, "baseRefName");
        let head_branch = str_field(pr_details, "headRefName");
        let pr_title = str_field(pr_details, "title");
        let author = match crate::client::obj_get(pr_details, "author") {
            Option::Some(a) => str_field(a, "login"),
            Option::None => String::new(),
        };
        BaseReplyContext {
            repo_owner: String::from_str(repo_owner),
            repo_name: String::from_str(repo_name),
            pr_number: String::from_str(pr_number),
            date: String::from_str(date),
            username,
            repo_url,
            base_branch,
            head_branch,
            pr_title,
            author,
            local_commit: String::from_str(local_commit),
        }
    }

    /// The reply target for one thread, from the lookup response (or
    /// its absence, when the lookup failed or was skipped).
    pub fn get_reply_to_author(&self, target: &str, response: Option<&JsonValue>) -> (r: String)
        ensures
            r@ == reply_to_spec(target@, view_of_opt(response)),
    {
        let t = String::from_str(target);
        let main_key = String::from_str("main");
        if t == main_key {
            return t;
        }
        match response {
            Option::Some(j) => {
                let login = match crate::client::obj_get(j, "data") {
                    Option::Some(d) => match crate::client::obj_get(d, "node") {
                        Option::Some(n) => match crate::client::obj_get(n, "comments") {
                            Option::Some(c) => match crate::client::obj_get(c, "nodes") {
                                Option::Some(ns) => match ns {
                                    JsonValue::Arr(es) => {
                                        if es.len() >= 1 {
                                            proof {
                                                crate::json::lemma_view_arr(es@, 0);
                                            }
                                            match crate::client::obj_get(&es[0], "author") {
                                                Option::Some(a) => match
                                                    crate::client::obj_get_str(a, "login") {
                                                    Option::Some(s) => Option::Some(s.clone()),
                                                    Option::None => Option::None,
                                                },
                                                Option::None => Option::None,
                                            }
                                        } else {
                                            Option::None
                                        }
                                    },
                                    _ => Option::None,
                                },
                                Option::None => Option::None,
                            },
                            Option::None => Option::None,
                        },
                        Option::None => Option::None,
                    },
                    Option::None => Option::None,
                };
                match login {
                    Option::Some(s) => s,
                    Option::None => t,
                }
            },
            Option::None => t,
        }
    }

    /// The full per-thread context: the base plus the reply target.
    pub fn build_reply_context(&self, base: BaseReplyContext, reply_to: String) -> (r:
        ReplyContext)
        ensures
            r.base == base,
            r.reply_to == reply_to,
    {
        ReplyContext { base, reply_to }
    }
}

/// A string member, or the empty string.
fn str_field(v: &JsonValue, key: &str) -> (r: String)
    ensures
        r@ == j_str_or_empty(j_get(v@, key@)),
{
    match crate::client::obj_get_str(v, key) {
        Option::Some(s) => s.clone(),
        Option::None => String::new(),
    }
}

/// Relies on chrono's `Utc::now().to_rfc3339`: the current moment in
/// ISO-8601 form. Nothing is promised of the clock's reading.
#[verifier::external_body]
pub fn current_timestamp() -> String {
    chrono::Utc::now().to_rfc3339()
}

} // verus!

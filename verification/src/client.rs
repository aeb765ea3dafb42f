//! Remote-query engine: repository-coordinate resolution, query
//! normalization, request bodies, response decoding, the retry policy
//! and cursor pagination. The transport itself (a subprocess call to
//! the platform's client) stays outside: callers execute the requests
//! built here and hand the response text back.

use vstd::prelude::*;
use vstd::string::StringExecFns;
use crate::assoc::assoc_map;
use crate::chars::{is_space, space, str_chars, chars_string, sub_string};
use crate::error::GhReplyError;
use crate::json::{JsonValue, JsonV, view_json, view_members, lemma_view_members, render_json};
use crate::types::{opt_str_view, ReviewThread, ReviewThreadV};

verus! {

// ------------------------------------------------------------------
// JSON navigation
// ------------------------------------------------------------------

/// The member of `j` named `k`, the latest binding winning.
pub open spec fn j_get(j: JsonV, k: Seq<char>) -> Option<JsonV> {
    match j {
        JsonV::Obj(ms) => {
            if assoc_map(ms).contains_key(k) {
                Option::Some(assoc_map(ms)[k])
            } else {
                Option::None
            }
        },
        _ => Option::None,
    }
}

/// The string content of `j`, if it is a string.
pub open spec fn j_str(j: Option<JsonV>) -> Option<Seq<char>> {
    match j {
        Option::Some(JsonV::Str(s)) => Option::Some(s),
        _ => Option::None,
    }
}

/// Look a key up in an object value.
#[verifier::loop_isolation(false)]
#[verifier::rlimit(60)]
#[verifier::spinoff_prover]
pub fn obj_get<'a>(v: &'a JsonValue, key: &str) -> (r: Option<&'a JsonValue>)
    ensures
        match r {
            Option::Some(x) => j_get(v@, key@) == Option::Some(x@),
            Option::None => j_get(v@, key@) is None,
        },
{
    let k = String::from_str(key);
    match v {
        JsonValue::Obj(ms) => {
            proof {
                lemma_view_members(ms@, 0);
            }
            let ghost vm = view_members(ms@, 0);
            let mut j = ms.len();
            proof {
                assert(vm.take(j as int) =~= vm);
            }
            while j > 0
                invariant
                    j <= ms@.len(),
                    vm == view_members(ms@, 0),
                    vm.len() == ms@.len(),
                    forall|m: int| 0 <= m < ms@.len() ==> vm[m] == (
                        (#[trigger] ms@[m]).0@,
                        view_json(ms@[m].1),
                    ),
                    k@ == key@,
                    (assoc_map(vm).contains_key(key@) <==> assoc_map(
                        vm.take(j as int),
                    ).contains_key(key@)),
                    assoc_map(vm).contains_key(key@) ==> assoc_map(vm.take(j as int)).contains_key(
                        key@,
                    ) && assoc_map(vm)[key@] == assoc_map(vm.take(j as int))[key@],
                decreases j,
            {
                j = j - 1;
                let hit = ms[j].0 == k;
                proof {
                    let pre = vm.take(j + 1 as int);
                    assert(pre.last() == vm[j as int]);
                    assert(pre.drop_last() =~= vm.take(j as int));
                    if hit {
                        assert(vm[j as int].0 == key@);
                        assert(assoc_map(pre).contains_key(key@));
                        assert(assoc_map(pre)[key@] == vm[j as int].1);
                    }
                }
                if hit {
                    return Option::Some(&ms[j].1);
                }
            }
            proof {
                assert(vm.take(0) =~= Seq::<(Seq<char>, JsonV)>::empty());
            }
            Option::None
        },
        _ => Option::None,
    }
}

/// The string content of an object member, if present and a string.
pub fn obj_get_str<'a>(v: &'a JsonValue, key: &str) -> (r: Option<&'a String>)
    ensures
        match r {
            Option::Some(s) => j_str(j_get(v@, key@)) == Option::Some(s@),
            Option::None => j_str(j_get(v@, key@)) is None,
        },
{
    match obj_get(v, key) {
        Option::Some(x) => match x {
            JsonValue::Str(s) => Option::Some(s),
            _ => Option::None,
        },
        Option::None => Option::None,
    }
}

// ------------------------------------------------------------------
// Repository coordinates
// ------------------------------------------------------------------

/// Exactly one slash, splitting the text into two halves.
pub open spec fn split_override(s: Seq<char>) -> Option<(Seq<char>, Seq<char>)> {
    if exists|k: int|
        0 <= k < s.len() && #[trigger] s[k] == '/' && (forall|m: int|
            0 <= m < s.len() && m != k ==> s[m] != '/') {
        let k = choose|k: int|
            0 <= k < s.len() && #[trigger] s[k] == '/' && (forall|m: int|
                0 <= m < s.len() && m != k ==> s[m] != '/');
        Option::Some((s.subrange(0, k), s.subrange(k + 1, s.len() as int)))
    } else {
        Option::None
    }
}

/// Last `/` strictly before `end`, if any.
pub open spec fn last_slash_before(s: Seq<char>, end: int) -> Option<int>
    decreases end,
    when end <= s.len()
{
    if end <= 0 {
        Option::None
    } else if s[end - 1] == '/' {
        Option::Some(end - 1)
    } else {
        last_slash_before(s, end - 1)
    }
}

pub proof fn lemma_last_slash_bounds(s: Seq<char>, end: int)
    requires
        0 <= end <= s.len(),
        last_slash_before(s, end) is Some,
    ensures
        0 <= last_slash_before(s, end)->Some_0 < end,
    decreases end,
{
    if end > 0 && s[end - 1] != '/' {
        lemma_last_slash_bounds(s, end - 1);
    }
}

/// First `:` at or after `i` and strictly before `end`, if any.
pub open spec fn first_colon_in(s: Seq<char>, i: int, end: int) -> Option<int>
    decreases end - i,
    when 0 <= i && end <= s.len()
{
    if i >= end {
        Option::None
    } else if s[i] == ':' {
        Option::Some(i)
    } else {
        first_colon_in(s, i + 1, end)
    }
}

pub proof fn lemma_first_colon_bounds(s: Seq<char>, i: int, end: int)
    requires
        0 <= i,
        end <= s.len(),
        first_colon_in(s, i, end) is Some,
    ensures
        i <= first_colon_in(s, i, end)->Some_0 < end,
    decreases end - i,
{
    if i < end && s[i] != ':' {
        lemma_first_colon_bounds(s, i + 1, end);
    }
}

/// The trailing `owner/name` held by `u[..end]`: the name is the final
/// `/`-free segment, the owner the run between it and the separator
/// before it (the previous `/`, or else everything after the first `:`).
pub open spec fn tail_coords(u: Seq<char>, end: int) -> Option<(Seq<char>, Seq<char>)> {
    if 0 <= end <= u.len() {
        match last_slash_before(u, end) {
            Option::Some(q) => {
                if q + 1 < end {
                    let sep = match last_slash_before(u, q) {
                        Option::Some(p) => Option::Some(p),
                        Option::None => first_colon_in(u, 0, q),
                    };
                    match sep {
                        Option::Some(p) => {
                            if p + 1 < q {
                                Option::Some((u.subrange(p + 1, q), u.subrange(q + 1, end)))
                            } else {
                                Option::None
                            }
                        },
                        Option::None => Option::None,
                    }
                } else {
                    Option::None
                }
            },
            Option::None => Option::None,
        }
    } else {
        Option::None
    }
}

/// The repository coordinates a remote URL names: a trailing
/// `owner/name`, with a final `.git` suffix dropped when possible.
pub open spec fn repo_from_url(u: Seq<char>) -> Option<(Seq<char>, Seq<char>)> {
    let n = u.len() as int;
    if n >= 4 && u.subrange(n - 4, n) == seq!['.', 'g', 'i', 't'] && tail_coords(u, n - 4)
        is Some {
        tail_coords(u, n - 4)
    } else {
        tail_coords(u, n)
    }
}

/// What coordinate resolution answers, as a mathematical value.
pub ghost enum RepoInfo {
    Found(Seq<char>, Seq<char>),
    Rejected(Seq<char>),
}

/// The documented precedence: an explicit override (any shape other
/// than `owner/name` is a hard error), else the platform's repository
/// view, else a best-effort read of the remote URL.
pub open spec fn repo_info_spec(
    ov: Option<Seq<char>>,
    view: Option<JsonV>,
    url: Option<Seq<char>>,
) -> RepoInfo {
    match ov {
        Option::Some(o) => match split_override(o) {
            Option::Some((a, b)) => RepoInfo::Found(a, b),
            Option::None => RepoInfo::Rejected("Invalid repo override. Expected owner/name"@),
        },
        Option::None => match view {
            Option::Some(j) => {
                let owner = match j_str(j_get(j, "owner"@)) {
                    Option::Some(s) => Option::Some(s),
                    Option::None => match j_get(j, "owner"@) {
                        Option::Some(ow) => j_str(j_get(ow, "login"@)),
                        Option::None => Option::None,
                    },
                };
                match owner {
                    Option::Some(o) => match j_str(j_get(j, "name"@)) {
                        Option::Some(n) => RepoInfo::Found(o, n),
                        Option::None => RepoInfo::Rejected("Failed to get repo name"@),
                    },
                    Option::None => RepoInfo::Rejected("Failed to get owner"@),
                }
            },
            Option::None => match url {
                Option::Some(u) => match repo_from_url(u) {
                    Option::Some((a, b)) => RepoInfo::Found(a, b),
                    Option::None => RepoInfo::Rejected("Failed to parse remote URL"@),
                },
                Option::None => RepoInfo::Rejected("No git remote found"@),
            },
        },
    }
}

pub open spec fn view_of_opt(v: Option<&JsonValue>) -> Option<JsonV> {
    match v {
        Option::Some(x) => Option::Some(view_json(*x)),
        Option::None => Option::None,
    }
}

pub open spec fn view_str_opt(s: Option<&str>) -> Option<Seq<char>> {
    match s {
        Option::Some(x) => Option::Some(x@),
        Option::None => Option::None,
    }
}

/// Knows which repository to talk about; carries no connection.
pub struct GhClient {
    repo: Option<String>,
}

impl GhClient {
    /// The repository override, if one was supplied.
    pub closed spec fn repo_spec(&self) -> Option<Seq<char>> {
        opt_str_view(self.repo)
    }

    /// A client for the given repository override.
    pub fn new(repo: Option<String>) -> (r: Self)
        ensures
            r.repo_spec() == opt_str_view(repo),
    {
        GhClient { repo }
    }

    /// The override, for building transport arguments.
    pub fn repo_override(&self) -> (r: &Option<String>)
        ensures
            opt_str_view(*r) == self.repo_spec(),
    {
        &self.repo
    }

    /// Resolve repository coordinates with the documented precedence.
    /// `repo_view` is the platform's repository answer, if that call
    /// succeeded; `remote_url` the source-control remote, if readable.
    pub fn get_repo_info(&self, repo_view: Option<&JsonValue>, remote_url: Option<&str>) -> (r:
        Result<(String, String), GhReplyError>)
        ensures
            ({
                let sp = repo_info_spec(self.repo_spec(), view_of_opt(repo_view), view_str_opt(
                    remote_url,
                ));
                match r {
                    Result::Ok((o, n)) => sp == RepoInfo::Found(o@, n@),
                    Result::Err(e) => sp matches RepoInfo::Rejected(m) && e matches
                        GhReplyError::GhError(t) && t@ == m,
                }
            }),
    {
        match &self.repo {
            Option::Some(o) => {
                match split_override_exec(o.as_str()) {
                    Option::Some((a, b)) => Result::Ok((a, b)),
                    Option::None => Result::Err(
                        GhReplyError::GhError(
                            String::from_str("Invalid repo override. Expected owner/name"),
                        ),
                    ),
                }
            },
            Option::None => match repo_view {
                Option::Some(j) => {
                    let owner: Option<String> = match obj_get_str(j, "owner") {
                        Option::Some(s) => Option::Some(s.clone()),
                        Option::None => match obj_get(j, "owner") {
                            Option::Some(ow) => match obj_get_str(ow, "login") {
                                Option::Some(s) => Option::Some(s.clone()),
                                Option::None => Option::None,
                            },
                            Option::None => Option::None,
                        },
                    };
                    match owner {
                        Option::Some(o) => match obj_get_str(j, "name") {
                            Option::Some(n) => Result::Ok((o, n.clone())),
                            Option::None => Result::Err(
                                GhReplyError::GhError(
                                    String::from_str("Failed to get repo name"),
                                ),
                            ),
                        },
                        Option::None => Result::Err(
                            GhReplyError::GhError(String::from_str("Failed to get owner")),
                        ),
                    }
                },
                Option::None => match remote_url {
                    Option::Some(u) => match repo_from_url_exec(u) {
                        Option::Some((a, b)) => Result::Ok((a, b)),
                        Option::None => Result::Err(
                            GhReplyError::GhError(
                                String::from_str("Failed to parse remote URL"),
                            ),
                        ),
                    },
                    Option::None => Result::Err(
                        GhReplyError::GhError(String::from_str("No git remote found")),
                    ),
                },
            },
        }
    }

    /// The login of the authenticated user, read from the platform's
    /// `user` answer; the empty string when the call failed or the
    /// field is missing (callers then fall back to a local name).
    pub fn get_authenticated_user(&self, user_view: Option<&JsonValue>) -> (r: String)
        ensures
            r@ == match view_of_opt(user_view) {
                Option::Some(j) => match j_str(j_get(j, "login"@)) {
                    Option::Some(s) => s,
                    Option::None => Seq::<char>::empty(),
                },
                Option::None => Seq::<char>::empty(),
            },
    {
        match user_view {
            Option::Some(v) => match obj_get_str(v, "login") {
                Option::Some(s) => s.clone(),
                Option::None => String::new(),
            },
            Option::None => String::new(),
        }
    }
}

/// Split on the single slash; any other shape yields nothing.
fn split_override_exec(s: &str) -> (r: Option<(String, String)>)
    ensures
        match r {
            Option::Some((a, b)) => split_override(s@) == Option::Some((a@, b@)),
            Option::None => split_override(s@) is None,
        },
{
    let cs = str_chars(s);
    let mut slash: Option<usize> = Option::None;
    let mut count: usize = 0;
    let mut i: usize = 0;
    while i < cs.len()
        invariant
            i <= cs@.len(),
            cs@ == s@,
            count <= i,
            count == 0 ==> slash is None && (forall|m: int| 0 <= m < i ==> cs@[m] != '/'),
            count == 1 ==> (slash matches Option::Some(k) && k < i && cs@[k as int] == '/' && (
            forall|m: int| 0 <= m < i && m != k ==> cs@[m] != '/')),
            count >= 2 ==> exists|k1: int, k2: int|
                0 <= k1 < k2 < i && (#[trigger] cs@[k1]) == '/' && (#[trigger] cs@[k2]) == '/',
        decreases cs@.len() - i,
    {
        if cs[i] == '/' {
            if count == 0 {
                slash = Option::Some(i);
            }
            count = count + 1;
        }
        i = i + 1;
    }
    if count == 1 {
        let k = match slash {
            Option::Some(k) => k,
            Option::None => 0,
        };
        let a = sub_string(&cs, 0, k);
        let b = sub_string(&cs, k + 1, cs.len());
        proof {
            let ki = k as int;
            assert(0 <= ki < s@.len() && s@[ki] == '/' && (forall|m: int|
                0 <= m < s@.len() && m != ki ==> s@[m] != '/'));
            let kc = choose|kk: int|
                0 <= kk < s@.len() && #[trigger] s@[kk] == '/' && (forall|m: int|
                    0 <= m < s@.len() && m != kk ==> s@[m] != '/');
            assert(kc == ki);
        }
        Option::Some((a, b))
    } else {
        proof {
            if split_override(s@) is Some {
                let kc = choose|kk: int|
                    0 <= kk < s@.len() && #[trigger] s@[kk] == '/' && (forall|m: int|
                        0 <= m < s@.len() && m != kk ==> s@[m] != '/');
                if count >= 2 {
                    let (k1, k2) = choose|k1: int, k2: int|
                        0 <= k1 < k2 < s@.len() && (#[trigger] s@[k1]) == '/' && (#[trigger] s@[k2]) == '/';
                    assert(k1 != kc || k2 != kc);
                    assert(false);
                }
            }
        }
        Option::None
    }
}

/// Last `/` strictly before `end`.
fn last_slash_exec(cs: &Vec<char>, end: usize) -> (r: Option<usize>)
    requires
        end <= cs@.len(),
    ensures
        match r {
            Option::Some(p) => last_slash_before(cs@, end as int) == Option::Some(p as int) && p
                < end,
            Option::None => last_slash_before(cs@, end as int) is None,
        },
{
    let mut j = end;
    while j > 0
        invariant
            j <= end <= cs@.len(),
            last_slash_before(cs@, end as int) == last_slash_before(cs@, j as int),
        decreases j,
    {
        if cs[j - 1] == '/' {
            return Option::Some(j - 1);
        }
        j = j - 1;
    }
    Option::None
}

/// First `:` strictly before `end`.
fn first_colon_exec(cs: &Vec<char>, end: usize) -> (r: Option<usize>)
    requires
        end <= cs@.len(),
    ensures
        match r {
            Option::Some(p) => first_colon_in(cs@, 0, end as int) == Option::Some(p as int) && p
                < end,
            Option::None => first_colon_in(cs@, 0, end as int) is None,
        },
{
    let mut j: usize = 0;
    while j < end
        invariant
            j <= end <= cs@.len(),
            first_colon_in(cs@, 0, end as int) == first_colon_in(cs@, j as int, end as int),
        decreases end - j,
    {
        if cs[j] == ':' {
            return Option::Some(j);
        }
        j = j + 1;
    }
    Option::None
}

/// The trailing coordinates of `cs[..end]`.
fn tail_coords_exec(cs: &Vec<char>, end: usize) -> (r: Option<(String, String)>)
    requires
        end <= cs@.len(),
    ensures
        match r {
            Option::Some((a, b)) => tail_coords(cs@, end as int) == Option::Some((a@, b@)),
            Option::None => tail_coords(cs@, end as int) is None,
        },
{
    match last_slash_exec(cs, end) {
        Option::Some(q) => {
            if q + 1 < end {
                let sep = match last_slash_exec(cs, q) {
                    Option::Some(p) => Option::Some(p),
                    Option::None => first_colon_exec(cs, q),
                };
                match sep {
                    Option::Some(p) => {
                        if p + 1 < q {
                            let a = sub_string(cs, p + 1, q);
                            let b = sub_string(cs, q + 1, end);
                            Option::Some((a, b))
                        } else {
                            Option::None
                        }
                    },
                    Option::None => Option::None,
                }
            } else {
                Option::None
            }
        },
        Option::None => Option::None,
    }
}

/// The coordinates named by a remote URL.
fn repo_from_url_exec(u: &str) -> (r: Option<(String, String)>)
    ensures
        match r {
            Option::Some((a, b)) => repo_from_url(u@) == Option::Some((a@, b@)),
            Option::None => repo_from_url(u@) is None,
        },
{
    let cs = str_chars(u);
    let n = cs.len();
    let stripped = n >= 4 && cs[n - 4] == '.' && cs[n - 3] == 'g' && cs[n - 2] == 'i' && cs[n
        - 1] == 't';
    proof {
        if n >= 4 {
            assert(cs@.subrange(n - 4, n as int) =~= seq![
                cs@[n - 4],
                cs@[n - 3],
                cs@[n - 2],
                cs@[n - 1],
            ]);
            if stripped {
                assert(cs@.subrange(n - 4, n as int) =~= seq!['.', 'g', 'i', 't']);
            } else {
                assert(cs@.subrange(n - 4, n as int) != seq!['.', 'g', 'i', 't']);
            }
        }
    }
    if stripped {
        match tail_coords_exec(&cs, n - 4) {
            Option::Some(p) => Option::Some(p),
            Option::None => tail_coords_exec(&cs, n),
        }
    } else {
        tail_coords_exec(&cs, n)
    }
}


// ------------------------------------------------------------------
// Query normalization and request building
// ------------------------------------------------------------------

/// First position at or after `i` holding a space (or the end).
pub open spec fn token_end(s: Seq<char>, i: int) -> int
    decreases s.len() - i,
    when 0 <= i <= s.len()
{
    if i == s.len() {
        i
    } else if !is_space(s[i]) {
        token_end(s, i + 1)
    } else {
        i
    }
}

pub proof fn lemma_token_end_bounds(s: Seq<char>, i: int)
    requires
        0 <= i <= s.len(),
    ensures
        i <= token_end(s, i) <= s.len(),
        i < s.len() && !is_space(s[i]) ==> token_end(s, i) > i,
    decreases s.len() - i,
{
    if i < s.len() && !is_space(s[i]) {
        lemma_token_end_bounds(s, i + 1);
    }
}

/// The whitespace-normal form of the suffix at `i`: tokens joined by
/// single spaces; `emitted` says whether a token was written already.
pub open spec fn norm_from(s: Seq<char>, i: int, emitted: bool) -> Seq<char>
    decreases s.len() - i,
    when 0 <= i <= s.len()
{
    if i == s.len() {
        Seq::empty()
    } else if is_space(s[i]) {
        norm_from(s, i + 1, emitted)
    } else {
        proof {
            lemma_token_end_bounds(s, i);
        }
        let e = token_end(s, i);
        (if emitted {
            seq![' ']
        } else {
            Seq::empty()
        }) + s.subrange(i, e) + norm_from(s, e, true)
    }
}

/// Collapse every whitespace run to one space and trim the ends, as
/// queries are normalized before transport.
pub fn normalize_query(q: &str) -> (r: String)
    ensures
        r@ == norm_from(q@, 0, false),
{
    let cs = str_chars(q);
    let mut out: Vec<char> = Vec::new();
    let mut i: usize = 0;
    let mut emitted = false;
    proof {
        assert(out@ + norm_from(cs@, 0, false) =~= norm_from(cs@, 0, false));
    }
    while i < cs.len()
        invariant
            i <= cs@.len(),
            cs@ == q@,
            norm_from(cs@, 0, false) == out@ + norm_from(cs@, i as int, emitted),
        decreases cs@.len() - i,
    {
        if space(cs[i]) {
            i = i + 1;
        } else {
            let ghost pre = out@;
            let e = token_end_exec(&cs, i);
            if emitted {
                out.push(' ');
            }
            let mut k = i;
            while k < e
                invariant
                    i <= k <= e <= cs@.len(),
                    out@ == pre + (if emitted {
                        seq![' ']
                    } else {
                        Seq::<char>::empty()
                    }) + cs@.subrange(i as int, k as int),
                decreases e - k,
            {
                let c = cs[k];
                out.push(c);
                proof {
                    assert(cs@.subrange(i as int, k as int).push(cs@[k as int]) =~= cs@.subrange(
                        i as int,
                        k + 1,
                    ));
                    assert(out@ =~= pre + (if emitted {
                        seq![' ']
                    } else {
                        Seq::<char>::empty()
                    }) + cs@.subrange(i as int, k + 1));
                }
                k = k + 1;
            }
            proof {
                let sp: Seq<char> = if emitted {
                    seq![' ']
                } else {
                    Seq::empty()
                };
                assert(norm_from(cs@, i as int, emitted) == sp + cs@.subrange(
                    i as int,
                    e as int,
                ) + norm_from(cs@, e as int, true));
                assert(pre + sp + cs@.subrange(i as int, e as int) + norm_from(
                    cs@,
                    e as int,
                    true,
                ) =~= pre + (sp + cs@.subrange(i as int, e as int) + norm_from(
                    cs@,
                    e as int,
                    true,
                )));
            }
            i = e;
            emitted = true;
        }
    }
    proof {
        assert(out@ + Seq::<char>::empty() =~= out@);
    }
    chars_string(&out)
}

fn token_end_exec(cs: &Vec<char>, i: usize) -> (r: usize)
    requires
        i <= cs@.len(),
    ensures
        r == token_end(cs@, i as int),
        i <= r <= cs@.len(),
{
    let mut j = i;
    while j < cs.len() && !space(cs[j])
        invariant
            i <= j <= cs@.len(),
            token_end(cs@, i as int) == token_end(cs@, j as int),
        decreases cs@.len() - j,
    {
        j = j + 1;
    }
    j
}

/// The request document for a query with variables: an object holding
/// the normalized query text and the variables, rendered as one line.
pub fn graphql_request_body(query: &str, variables: JsonValue) -> (r: String)
    ensures
        r@ == render_json(
            JsonV::Obj(
                seq![
                    ("query"@, JsonV::Str(norm_from(query@, 0, false))),
                    ("variables"@, variables@),
                ],
            ),
        ),
{
    let nq = normalize_query(query);
    let mut ms: Vec<(String, JsonValue)> = Vec::new();
    ms.push((String::from_str("query"), JsonValue::Str(nq)));
    ms.push((String::from_str("variables"), variables));
    let doc = JsonValue::Obj(ms);
    proof {
        crate::json::lemma_view_members(doc->Obj_0@, 0);
        assert(view_json(doc)->Obj_0 =~= seq![
            ("query"@, JsonV::Str(norm_from(query@, 0, false))),
            ("variables"@, view_json(doc->Obj_0@[1].1)),
        ]);
        assert(view_json(doc) =~~= JsonV::Obj(
            seq![
                ("query"@, JsonV::Str(norm_from(query@, 0, false))),
                ("variables"@, view_json(doc->Obj_0@[1].1)),
            ],
        ));
    }
    crate::json::render_document(&doc)
}

/// The single-argument form for a query without variables.
pub fn graphql_query_arg(query: &str) -> (r: String)
    ensures
        r@ == "query="@ + norm_from(query@, 0, false),
{
    let nq = normalize_query(query);
    let mut out = String::from_str("query=");
    out.append(nq.as_str());
    out
}

/// Hand back a response unless it carries an error envelope; an
/// envelope is a hard failure for the attempt, surfaced verbatim.
pub fn graphql_result(v: JsonValue) -> (r: Result<JsonValue, GhReplyError>)
    ensures
        j_get(v@, "errors"@) is None ==> (r matches Ok(out) && out@ == v@),
        j_get(v@, "errors"@) matches Option::Some(errs) ==> (r matches Err(e) && e matches
            GhReplyError::GhError(m) && m@ == "GraphQL errors: "@ + render_json(errs)),
{
    let has_errors = match obj_get(&v, "errors") {
        Option::Some(errs) => Option::Some(crate::json::render_document(errs)),
        Option::None => Option::None,
    };
    match has_errors {
        Option::Some(txt) => {
            let mut msg = String::from_str("GraphQL errors: ");
            msg.append(txt.as_str());
            Result::Err(GhReplyError::GhError(msg))
        },
        Option::None => Result::Ok(v),
    }
}

// ------------------------------------------------------------------
// Retry policy
// ------------------------------------------------------------------

pub open spec fn pow2(n: nat) -> nat
    decreases n,
{
    if n == 0 {
        1nat
    } else {
        2 * pow2((n - 1) as nat)
    }
}

pub proof fn lemma_pow2_le(a: nat, b: nat)
    requires
        a <= b,
    ensures
        pow2(a) <= pow2(b),
        pow2(a) >= 1,
    decreases b,
{
    if b > 0 {
        if a == b {
            lemma_pow2_le((a - 1) as nat, (b - 1) as nat);
        } else {
            lemma_pow2_le(a, (b - 1) as nat);
        }
    }
}

/// The backoff window before the retry that follows `failures` failed
/// attempts: half a second, doubled per power of two of the count.
pub fn backoff_window(failures: u32) -> (r: u64)
    requires
        1 <= failures <= 16,
    ensures
        r == 500 * pow2(failures as nat),
        r > 0,
{
    let mut w: u64 = 500;
    let mut k: u32 = 0;
    while k < failures
        invariant
            k <= failures <= 16,
            w == 500 * pow2(k as nat),
        decreases failures - k,
    {
        proof {
            lemma_pow2_le(k as nat, 15);
            assert(pow2(15) == 32768) by {
                reveal_with_fuel(pow2, 17);
            }
        }
        w = w * 2;
        k = k + 1;
    }
    proof {
        lemma_pow2_le(0, failures as nat);
    }
    w
}

/// The jittered delay before that retry: drawn uniformly below the
/// window by reducing the random draw.
pub fn backoff_delay(failures: u32, draw: u64) -> (r: u64)
    requires
        1 <= failures <= 16,
    ensures
        r == (draw as nat) % (500 * pow2(failures as nat)),
        r < 500 * pow2(failures as nat),
{
    let w = backoff_window(failures);
    draw % w
}

/// Relies on `rand::random::<u64>`: a value from the thread-local
/// generator. Nothing is promised of it; every delay below the window
/// satisfies the backoff contract.
#[verifier::external_body]
pub fn draw_jitter() -> u64 {
    rand::random::<u64>()
}

/// After `failures` failed attempts: the backoff window to wait before
/// the next attempt, or nothing once the three attempts are spent.
pub fn retry_decision(failures: u32) -> (r: Option<u64>)
    requires
        failures >= 1,
    ensures
        failures < 3 ==> (r matches Option::Some(w) && w == 500 * pow2(failures as nat)),
        failures >= 3 ==> r is None,
{
    if failures < 3 {
        Option::Some(backoff_window(failures))
    } else {
        Option::None
    }
}

/// One attempt's outcome, as the transport reports it.
pub enum AttemptOutcome {
    Success(JsonValue),
    Failure(GhReplyError),
}

/// Run the bounded retry policy against a fixed sequence of attempt
/// outcomes: up to three attempts in order, stopping at the first
/// success; after the final attempt the last error stands. Yields the
/// number of attempts made and the result.
pub fn run_retry_policy(outcomes: Vec<AttemptOutcome>) -> (r: (
    u32,
    Result<JsonValue, GhReplyError>,
))
    requires
        outcomes@.len() == 3,
    ensures
        outcomes@[0] is Success ==> r.0 == 1 && (r.1 matches Ok(v) && v == outcomes@[0]
            ->Success_0),
        outcomes@[0] is Failure && outcomes@[1] is Success ==> r.0 == 2 && (r.1 matches Ok(v)
            && v == outcomes@[1]->Success_0),
        outcomes@[0] is Failure && outcomes@[1] is Failure && outcomes@[2] is Success ==> r.0
            == 3 && (r.1 matches Ok(v) && v == outcomes@[2]->Success_0),
        outcomes@[0] is Failure && outcomes@[1] is Failure && outcomes@[2] is Failure ==> r.0
            == 3 && (r.1 matches Err(e) && e == outcomes@[2]->Failure_0),
{
    let mut rest = outcomes;
    let o0 = rest.remove(0);
    match o0 {
        AttemptOutcome::Success(v) => (1, Result::Ok(v)),
        AttemptOutcome::Failure(_) => {
            let o1 = rest.remove(0);
            match o1 {
                AttemptOutcome::Success(v) => (2, Result::Ok(v)),
                AttemptOutcome::Failure(_) => {
                    let o2 = rest.remove(0);
                    match o2 {
                        AttemptOutcome::Success(v) => (3, Result::Ok(v)),
                        AttemptOutcome::Failure(e) => (3, Result::Err(e)),
                    }
                },
            }
        },
    }
}


// ------------------------------------------------------------------
// Review threads: page decoding and pagination
// ------------------------------------------------------------------

/// Chained member lookup.
pub open spec fn j_get_o(o: Option<JsonV>, k: Seq<char>) -> Option<JsonV> {
    match o {
        Option::Some(j) => j_get(j, k),
        Option::None => Option::None,
    }
}

pub open spec fn j_bool_or(j: Option<JsonV>, d: bool) -> bool {
    match j {
        Option::Some(JsonV::Bool(b)) => b,
        _ => d,
    }
}

pub open spec fn j_str_or_empty(j: Option<JsonV>) -> Seq<char> {
    match j_str(j) {
        Option::Some(s) => s,
        Option::None => Seq::empty(),
    }
}

/// The review-threads connection inside a fetched page.
pub open spec fn threads_conn(j: JsonV) -> Option<JsonV> {
    j_get_o(
        j_get_o(j_get_o(j_get(j, "data"@), "repository"@), "pullRequest"@),
        "reviewThreads"@,
    )
}

/// The node list of the connection, when the response is shaped right.
pub open spec fn threads_nodes(j: JsonV) -> Option<Seq<JsonV>> {
    match j_get_o(threads_conn(j), "nodes"@) {
        Option::Some(JsonV::Arr(es)) => Option::Some(es),
        _ => Option::None,
    }
}

pub open spec fn first_elem(o: Option<JsonV>) -> Option<JsonV> {
    match o {
        Option::Some(JsonV::Arr(es)) => if es.len() >= 1 {
            Option::Some(es[0])
        } else {
            Option::None
        },
        _ => Option::None,
    }
}

/// One node read defensively: a missing or ill-typed optional field
/// degrades to absent or empty rather than failing the fetch.
pub open spec fn node_thread(n: JsonV) -> ReviewThreadV {
    ReviewThreadV {
        id: j_str_or_empty(j_get(n, "id"@)),
        path: j_str_or_empty(j_get(n, "path"@)),
        line: match j_get(n, "line"@) {
            Option::Some(JsonV::Int(l)) => if 0 <= l <= 0xffff_ffff {
                Option::Some(l as u32)
            } else {
                Option::None
            },
            _ => Option::None,
        },
        diff_side: j_str(j_get(n, "diffSide"@)),
        body: j_str_or_empty(
            j_get_o(first_elem(j_get_o(j_get(n, "comments"@), "nodes"@)), "body"@),
        ),
        is_resolved: j_bool_or(j_get(n, "isResolved"@), false),
    }
}

/// One fetched page of review threads.
#[derive(Debug)]
pub struct ThreadsPage {
    pub nodes: Vec<ReviewThread>,
    pub has_next_page: bool,
    pub end_cursor: Option<String>,
}

/// Mathematical image of a page.
pub ghost struct ThreadsPageV {
    pub nodes: Seq<ReviewThreadV>,
    pub has_next_page: bool,
    pub end_cursor: Option<Seq<char>>,
}

pub open spec fn rt_views(s: Seq<ReviewThread>) -> Seq<ReviewThreadV> {
    s.map_values(|t: ReviewThread| t@)
}

impl View for ThreadsPage {
    type V = ThreadsPageV;

    open spec fn view(&self) -> ThreadsPageV {
        ThreadsPageV {
            nodes: rt_views(self.nodes@),
            has_next_page: self.has_next_page,
            end_cursor: opt_str_view(self.end_cursor),
        }
    }
}

/// Decode one node into a thread.
fn parse_node(n: &JsonValue) -> (r: ReviewThread)
    ensures
        r@ == node_thread(n@),
{
    let id = match obj_get_str(n, "id") {
        Option::Some(s) => s.clone(),
        Option::None => String::new(),
    };
    let path = match obj_get_str(n, "path") {
        Option::Some(s) => s.clone(),
        Option::None => String::new(),
    };
    let line: Option<u32> = match obj_get(n, "line") {
        Option::Some(x) => match x {
            JsonValue::Int(l) => {
                let lv = *l;
                if 0 <= lv && lv <= 0xffff_ffff {
                    Option::Some(lv as u32)
                } else {
                    Option::None
                }
            },
            _ => Option::None,
        },
        Option::None => Option::None,
    };
    let diff_side = match obj_get_str(n, "diffSide") {
        Option::Some(s) => Option::Some(s.clone()),
        Option::None => Option::None,
    };
    let body = match obj_get(n, "comments") {
        Option::Some(c) => match obj_get(c, "nodes") {
            Option::Some(ns) => match ns {
                JsonValue::Arr(es) => {
                    if es.len() >= 1 {
                        proof {
                            crate::json::lemma_view_arr(es@, 0);
                        }
                        match obj_get_str(&es[0], "body") {
                            Option::Some(s) => s.clone(),
                            Option::None => String::new(),
                        }
                    } else {
                        String::new()
                    }
                },
                _ => String::new(),
            },
            Option::None => String::new(),
        },
        Option::None => String::new(),
    };
    let is_resolved = match obj_get(n, "isResolved") {
        Option::Some(x) => match x {
            JsonValue::Bool(b) => *b,
            _ => false,
        },
        Option::None => false,
    };
    ReviewThread { id, path, line, diff_side, body, is_resolved }
}

/// Decode one response page: pagination flags read leniently, but a
/// response without a node list is rejected whole.
pub fn parse_threads_page(v: &JsonValue) -> (r: Result<ThreadsPage, GhReplyError>)
    ensures
        match r {
            Result::Ok(p) => {
                &&& threads_nodes(v@) matches Option::Some(ns)
                &&& p@.nodes.len() == ns.len()
                &&& forall|i: int| 0 <= i < ns.len() ==> p@.nodes[i] == node_thread(
                    #[trigger] ns[i],
                )
                &&& p@.has_next_page == j_bool_or(
                    j_get_o(j_get_o(threads_conn(v@), "pageInfo"@), "hasNextPage"@),
                    false,
                )
                &&& p@.end_cursor == j_str(
                    j_get_o(j_get_o(threads_conn(v@), "pageInfo"@), "endCursor"@),
                )
            },
            Result::Err(e) => threads_nodes(v@) is None && (e matches GhReplyError::GhError(m)
                && m@ == "Invalid response structure"@),
        },
{
    let conn = match obj_get(v, "data") {
        Option::Some(d) => match obj_get(d, "repository") {
            Option::Some(rp) => match obj_get(rp, "pullRequest") {
                Option::Some(pr) => match obj_get(pr, "reviewThreads") {
                    Option::Some(c) => Option::Some(c),
                    Option::None => Option::None,
                },
                Option::None => Option::None,
            },
            Option::None => Option::None,
        },
        Option::None => Option::None,
    };
    let (has_next_page, end_cursor) = match conn {
        Option::Some(c) => match obj_get(c, "pageInfo") {
            Option::Some(pi) => {
                let hn = match obj_get(pi, "hasNextPage") {
                    Option::Some(x) => match x {
                        JsonValue::Bool(b) => *b,
                        _ => false,
                    },
                    Option::None => false,
                };
                let ec = match obj_get_str(pi, "endCursor") {
                    Option::Some(s) => Option::Some(s.clone()),
                    Option::None => Option::None,
                };
                (hn, ec)
            },
            Option::None => (false, Option::None),
        },
        Option::None => (false, Option::None),
    };
    match conn {
        Option::Some(c) => match obj_get(c, "nodes") {
            Option::Some(nsv) => match nsv {
                JsonValue::Arr(es) => {
                    proof {
                        crate::json::lemma_view_arr(es@, 0);
                    }
                    let ghost nsq = crate::json::view_arr(es@, 0);
                    let mut nodes: Vec<ReviewThread> = Vec::new();
                    let mut k: usize = 0;
                    while k < es.len()
                        invariant
                            k <= es@.len(),
                            nsq == crate::json::view_arr(es@, 0),
                            nsq.len() == es@.len(),
                            forall|m: int| 0 <= m < es@.len() ==> nsq[m] == view_json(
                                #[trigger] es@[m],
                            ),
                            nodes@.len() == k,
                            forall|m: int| 0 <= m < k ==> (#[trigger] nodes@[m])@ == node_thread(
                                nsq[m],
                            ),
                        decreases es@.len() - k,
                    {
                        let t = parse_node(&es[k]);
                        nodes.push(t);
                        k = k + 1;
                    }
                    proof {
                        assert(rt_views(nodes@) =~= Seq::new(
                            nsq.len(),
                            |i: int| node_thread(nsq[i]),
                        ));
                    }
                    Result::Ok(ThreadsPage { nodes, has_next_page, end_cursor })
                },
                _ => Result::Err(
                    GhReplyError::GhError(String::from_str("Invalid response structure")),
                ),
            },
            Option::None => Result::Err(
                GhReplyError::GhError(String::from_str("Invalid response structure")),
            ),
        },
        Option::None => Result::Err(
            GhReplyError::GhError(String::from_str("Invalid response structure")),
        ),
    }
}

/// The nodes of a page sequence, concatenated in page order.
pub open spec fn all_nodes(pages: Seq<ThreadsPageV>) -> Seq<ReviewThreadV>
    decreases pages.len(),
{
    if pages.len() == 0 {
        Seq::empty()
    } else {
        all_nodes(pages.drop_last()) + pages.last().nodes
    }
}

/// Accumulates pages into the full thread list.
pub struct ThreadFetch {
    pub threads: Vec<ReviewThread>,
    pub cursor: Option<String>,
    pub done: bool,
    pub pages: usize,
}

impl ThreadFetch {
    /// An empty accumulator: no cursor, first query pending.
    pub fn new() -> (r: Self)
        ensures
            rt_views(r.threads@) == Seq::<ReviewThreadV>::empty(),
            r.cursor is None,
            !r.done,
            r.pages == 0,
    {
        let r = ThreadFetch { threads: Vec::new(), cursor: Option::None, done: false, pages: 0 };
        proof {
            assert(rt_views(r.threads@) =~= Seq::<ReviewThreadV>::empty());
        }
        r
    }

    /// Absorb one fetched page: keep its nodes in order, remember its
    /// cursor, and stop once the remote reports no further page.
    pub fn absorb(&mut self, page: ThreadsPage)
        requires
            old(self).pages < usize::MAX,
        ensures
            rt_views(final(self).threads@) == rt_views(old(self).threads@) + page@.nodes,
            final(self).cursor == page.end_cursor,
            final(self).done == !page.has_next_page,
            final(self).pages == old(self).pages + 1,
    {
        let ThreadsPage { mut nodes, has_next_page, end_cursor } = page;
        let ghost nodes0 = nodes@;
        self.threads.append(&mut nodes);
        self.cursor = end_cursor;
        self.done = !has_next_page;
        self.pages = self.pages + 1;
        proof {
            assert(rt_views(self.threads@) =~= rt_views(old(self).threads@) + rt_views(nodes0));
        }
    }
}

/// Run the pagination loop over a fixed page sequence: one query per
/// page, stopping exactly when a page reports no successor. The result
/// holds every node, in page order and per-page node order, and the
/// number of queries issued equals the number of pages.
#[verifier::loop_isolation(false)]
pub fn run_pagination(pages: Vec<ThreadsPage>) -> (r: (Vec<ReviewThread>, usize))
    requires
        pages@.len() >= 1,
        forall|i: int| 0 <= i < pages@.len() - 1 ==> (#[trigger] pages@[i]).has_next_page,
        !pages@[pages@.len() - 1].has_next_page,
    ensures
        r.1 == pages@.len(),
        rt_views(r.0@) == all_nodes(pages@.map_values(|p: ThreadsPage| p@)),
{
    let ghost pv = pages@.map_values(|p: ThreadsPage| p@);
    let ghost total = pages@.len() as int;
    let mut rest = pages;
    let n0 = rest.len();
    proof {
        assert(total == n0);
    }
    let mut fetch = ThreadFetch::new();
    while !fetch.done
        invariant
            total == n0,
            fetch.pages + rest@.len() == total,
            fetch.done ==> rest@.len() == 0,
            !fetch.done ==> rest@.len() >= 1,
            forall|m: int| 0 <= m < rest@.len() ==> rest@[m] == pages@[total - rest@.len() + m],
            rt_views(fetch.threads@) == all_nodes(pv.take(fetch.pages as int)),
        decreases rest@.len() + (if fetch.done {
            0int
        } else {
            1int
        }),
    {
        let ghost k = total - rest@.len();
        let page = rest.remove(0);
        proof {
            assert(page == pages@[k]);
            assert(page@ == pv[k]);
        }
        fetch.absorb(page);
        proof {
            assert(pv.take(k + 1).drop_last() =~= pv.take(k));
            assert(pv.take(k + 1).last() == pv[k]);
            assert(all_nodes(pv.take(k + 1)) == all_nodes(pv.take(k)) + pv[k].nodes);
            if fetch.done {
                assert(!pages@[k].has_next_page);
                assert(k == total - 1);
                assert(rest@.len() == 0);
            } else {
                assert(pages@[k].has_next_page);
                assert(k < total - 1);
            }
        }
    }
    proof {
        assert(pv.take(total) =~= pv);
    }
    let ThreadFetch { threads, cursor: _, done: _, pages: n } = fetch;
    (threads, n)
}

// ------------------------------------------------------------------
// Query text builders
// ------------------------------------------------------------------

/// The paginated review-threads query for one page.
pub fn threads_query(owner: &str, name: &str, pr_number: u32, cursor: &Option<String>) -> (r:
    String)
    ensures
        r@ == "query { repository(owner: \""@ + owner@ + "\", name: \""@ + name@
            + "\") { pullRequest(number: "@ + crate::chars::dec_digits(pr_number as nat) + ") { reviewThreads(first: 100"@
            + (match opt_str_view(*cursor) {
            Option::Some(c) => ", after: \""@ + c + "\""@,
            Option::None => Seq::<char>::empty(),
        })
            + ") { pageInfo { hasNextPage endCursor } nodes { id isResolved path line diffSide comments(first: 1) { nodes { body author { login } } } } } } }"@,
{
    let mut q = String::from_str("query { repository(owner: \"");
    q.append(owner);
    q.append("\", name: \"");
    q.append(name);
    q.append("\") { pullRequest(number: ");
    let num = crate::chars::u64_dec_string(pr_number as u64);
    q.append(num.as_str());
    q.append(") { reviewThreads(first: 100");
    match cursor {
        Option::Some(c) => {
            q.append(", after: \"");
            q.append(c.as_str());
            q.append("\"");
        },
        Option::None => {},
    }
    q.append(
        ") { pageInfo { hasNextPage endCursor } nodes { id isResolved path line diffSide comments(first: 1) { nodes { body author { login } } } } } } }",
    );
    proof {
        assert(q@ =~= "query { repository(owner: \""@ + owner@ + "\", name: \""@ + name@
            + "\") { pullRequest(number: "@ + crate::chars::dec_digits(pr_number as nat)
            + ") { reviewThreads(first: 100"@ + (match opt_str_view(*cursor) {
            Option::Some(c) => ", after: \""@ + c + "\""@,
            Option::None => Seq::<char>::empty(),
        })
            + ") { pageInfo { hasNextPage endCursor } nodes { id isResolved path line diffSide comments(first: 1) { nodes { body author { login } } } } } } }"@);
    }
    q
}

/// The reply mutation and its variables.
pub fn post_reply_request(thread_id: &str, body: &str) -> (r: (String, JsonValue))
    ensures
        r.0@
            == "mutation ($threadId: ID!, $body: String!) { addPullRequestReviewThreadReply(input: {pullRequestReviewThreadId: $threadId, body: $body}) { comment { id } } }"@,
        r.1@ == JsonV::Obj(
            seq![("threadId"@, JsonV::Str(thread_id@)), ("body"@, JsonV::Str(body@))],
        ),
{
    let q = String::from_str(
        "mutation ($threadId: ID!, $body: String!) { addPullRequestReviewThreadReply(input: {pullRequestReviewThreadId: $threadId, body: $body}) { comment { id } } }",
    );
    let mut ms: Vec<(String, JsonValue)> = Vec::new();
    ms.push((String::from_str("threadId"), JsonValue::Str(String::from_str(thread_id))));
    ms.push((String::from_str("body"), JsonValue::Str(String::from_str(body))));
    let vars = JsonValue::Obj(ms);
    proof {
        crate::json::lemma_view_members(vars->Obj_0@, 0);
        assert(view_json(vars)->Obj_0 =~= seq![
            ("threadId"@, JsonV::Str(thread_id@)),
            ("body"@, JsonV::Str(body@)),
        ]);
        assert(view_json(vars) =~~= JsonV::Obj(
            seq![("threadId"@, JsonV::Str(thread_id@)), ("body"@, JsonV::Str(body@))],
        ));
    }
    (q, vars)
}

/// The resolve mutation and its variables.
pub fn resolve_thread_request(thread_id: &str) -> (r: (String, JsonValue))
    ensures
        r.0@
            == "mutation($threadId: ID!) { resolveReviewThread(input: {threadId: $threadId}) { thread { id } } }"@,
        r.1@ == JsonV::Obj(seq![("threadId"@, JsonV::Str(thread_id@))]),
{
    let q = String::from_str(
        "mutation($threadId: ID!) { resolveReviewThread(input: {threadId: $threadId}) { thread { id } } }",
    );
    let mut ms: Vec<(String, JsonValue)> = Vec::new();
    ms.push((String::from_str("threadId"), JsonValue::Str(String::from_str(thread_id))));
    let vars = JsonValue::Obj(ms);
    proof {
        crate::json::lemma_view_members(vars->Obj_0@, 0);
        assert(view_json(vars)->Obj_0 =~= seq![("threadId"@, JsonV::Str(thread_id@))]);
        assert(view_json(vars) =~~= JsonV::Obj(seq![("threadId"@, JsonV::Str(thread_id@))]));
    }
    (q, vars)
}

} // verus!

//! Command-level decision logic: thread-reference resolution, listing,
//! and the plans the reply and draft-send commands hand to the
//! transport. A dry run plans no remote action at all.

use vstd::prelude::*;
use vstd::string::StringExecFns;
use crate::chars::dec_digits;
use crate::error::GhReplyError;
use crate::types::{DraftEntry, BaseReplyContext, ReplyContext, ReviewThread};
use crate::vars::{TemplateExpander, base_pairs, context_pairs, expand_spec};
use crate::client::rt_views;

verus! {

/// Resolve a thread reference: an opaque identifier passes through; a
/// 1-based display index picks from the given thread list, an index of
/// zero or past the end naming the valid range; giving both forms, or
/// neither, is rejected.
pub fn resolve_thread_id(
    threads: &Vec<ReviewThread>,
    thread_id: Option<&str>,
    index: Option<usize>,
) -> (r: Result<String, GhReplyError>)
    ensures
        match (thread_id, index) {
            (Option::Some(id), Option::None) => r matches Ok(s) && s@ == id@,
            (Option::None, Option::Some(idx)) => {
                if 1 <= idx <= threads@.len() {
                    r matches Ok(s) && s@ == threads@[idx - 1].id@
                } else {
                    r matches Err(e) && (e matches GhReplyError::GhError(m) && m@
                        == "Thread index "@ + dec_digits(idx as nat) + " is out of range (1-"@
                        + dec_digits(threads@.len() as nat) + ")"@)
                }
            },
            (Option::Some(_), Option::Some(_)) => r matches Err(e) && (e matches
                GhReplyError::GhError(m) && m@ == "Cannot specify both thread_id and index"@),
            (Option::None, Option::None) => r matches Err(e) && (e matches
                GhReplyError::GhError(m) && m@ == "Must specify either thread_id or --index"@),
        },
{
    match (thread_id, index) {
        (Option::Some(id), Option::None) => Result::Ok(String::from_str(id)),
        (Option::None, Option::Some(idx)) => {
            if 1 <= idx && idx <= threads.len() {
                Result::Ok(threads[idx - 1].id.clone())
            } else {
                let mut m = String::from_str("Thread index ");
                let a = crate::chars::u64_dec_string(idx as u64);
                m.append(a.as_str());
                m.append(" is out of range (1-");
                let b = crate::chars::u64_dec_string(threads.len() as u64);
                m.append(b.as_str());
                m.append(")");
                proof {
                    assert(m@ =~= "Thread index "@ + dec_digits(idx as nat)
                        + " is out of range (1-"@ + dec_digits(threads@.len() as nat) + ")"@);
                }
                Result::Err(GhReplyError::GhError(m))
            }
        },
        (Option::Some(_), Option::Some(_)) => Result::Err(
            GhReplyError::GhError(String::from_str("Cannot specify both thread_id and index")),
        ),
        (Option::None, Option::None) => Result::Err(
            GhReplyError::GhError(String::from_str("Must specify either thread_id or --index")),
        ),
    }
}

/// The first thread carrying the given identifier.
pub fn find_thread<'a>(threads: &'a Vec<ReviewThread>, thread_id: &str) -> (r: Option<
    &'a ReviewThread,
>)
    ensures
        match r {
            Option::Some(t) => t@.id == thread_id@ && (exists|i: int|
                0 <= i < threads@.len() && (#[trigger] threads@[i])@ == t@),
            Option::None => forall|i: int|
                0 <= i < threads@.len() ==> (#[trigger] threads@[i])@.id != thread_id@,
        },
{
    let key = String::from_str(thread_id);
    let mut i: usize = 0;
    while i < threads.len()
        invariant
            i <= threads@.len(),
            key@ == thread_id@,
            forall|m: int| 0 <= m < i ==> (#[trigger] threads@[m])@.id != thread_id@,
        decreases threads@.len() - i,
    {
        if threads[i].id == key {
            return Option::Some(&threads[i]);
        }
        i = i + 1;
    }
    Option::None
}

/// The threads the list command shows before pagination: resolved ones
/// are kept only on request.
pub open spec fn visible(t: crate::types::ReviewThreadV, include_resolved: bool) -> bool {
    include_resolved || !t.is_resolved
}

/// Filter and paginate the fetched threads for the list command, after
/// rejecting the option forms that are not yet implemented.
pub fn list_threads(
    threads: &Vec<ReviewThread>,
    include_resolved: bool,
    label: Option<&str>,
    comment_filter: Option<&str>,
    detail: Option<&str>,
    page: usize,
    per_page: usize,
) -> (r: Result<Vec<ReviewThread>, GhReplyError>)
    requires
        1 <= page,
        (page - 1) * per_page <= usize::MAX,
    ensures
        label is Some ==> (r matches Err(e) && (e matches GhReplyError::GhError(m) && m@
            == "Option --label is not yet implemented"@)),
        label is None && comment_filter is Some ==> (r matches Err(e) && (e matches
            GhReplyError::GhError(m) && m@ == "Option --comment-filter is not yet implemented"@)),
        label is None && comment_filter is None && detail is Some ==> (r matches Err(e) && (e
            matches GhReplyError::GhError(m) && m@ == "Option --detail is not yet implemented"@)),
        label is None && comment_filter is None && detail is None ==> (r matches Ok(out) && ({
            let kept = rt_views(threads@).filter(
                |t: crate::types::ReviewThreadV| visible(t, include_resolved),
            );
            let start = (page - 1) * per_page;
            rt_views(out@) == if start >= kept.len() {
                Seq::<crate::types::ReviewThreadV>::empty()
            } else if start + per_page <= kept.len() {
                kept.subrange(start as int, (start + per_page) as int)
            } else {
                kept.subrange(start as int, kept.len() as int)
            }
        })),
{
    if label.is_some() {
        return Result::Err(
            GhReplyError::GhError(String::from_str("Option --label is not yet implemented")),
        );
    }
    if comment_filter.is_some() {
        return Result::Err(
            GhReplyError::GhError(
                String::from_str("Option --comment-filter is not yet implemented"),
            ),
        );
    }
    if detail.is_some() {
        return Result::Err(
            GhReplyError::GhError(String::from_str("Option --detail is not yet implemented")),
        );
    }
    let ghost pred = |t: crate::types::ReviewThreadV| visible(t, include_resolved);
    let mut kept: Vec<ReviewThread> = Vec::new();
    let mut i: usize = 0;
    proof {
        assert(rt_views(threads@).take(0) =~= Seq::<crate::types::ReviewThreadV>::empty());
        assert(rt_views(kept@) =~= rt_views(threads@).take(0).filter(pred));
    }
    while i < threads.len()
        invariant
            i <= threads@.len(),
            rt_views(kept@) == rt_views(threads@).take(i as int).filter(pred),
            pred == (|t: crate::types::ReviewThreadV| visible(t, include_resolved)),
        decreases threads@.len() - i,
    {
        let ghost pre = rt_views(threads@).take(i as int);
        proof {
            assert(rt_views(threads@).take(i + 1).drop_last() =~= pre);
            assert(rt_views(threads@).take(i + 1).last() == threads@[i as int]@);
            assert(rt_views(threads@).take(i + 1) == pre.push(threads@[i as int]@));
            crate::commands::lemma_filter_push(pre, threads@[i as int]@, pred);
        }
        if include_resolved || !threads[i].is_resolved {
            let t = threads[i].clone();
            kept.push(t);
            proof {
                assert(rt_views(kept@) =~= rt_views(threads@).take(i + 1).filter(pred));
            }
        } else {
            proof {
                assert(rt_views(kept@) =~= rt_views(threads@).take(i + 1).filter(pred));
            }
        }
        i = i + 1;
    }
    proof {
        assert(rt_views(threads@).take(threads@.len() as int) =~= rt_views(threads@));
    }
    let start = (page - 1) * per_page;
    let mut out: Vec<ReviewThread> = Vec::new();
    if start >= kept.len() {
        proof {
            assert(rt_views(out@) =~= Seq::<crate::types::ReviewThreadV>::empty());
        }
        return Result::Ok(out);
    }
    let end = if kept.len() - start >= per_page {
        start + per_page
    } else {
        kept.len()
    };
    let mut k = start;
    while k < end
        invariant
            start <= k <= end <= kept@.len(),
            rt_views(out@) == rt_views(kept@).subrange(start as int, k as int),
        decreases end - k,
    {
        let t = kept[k].clone();
        out.push(t);
        proof {
            assert(rt_views(kept@).subrange(start as int, k as int).push(kept@[k as int]@)
                =~= rt_views(kept@).subrange(start as int, k + 1));
            assert(rt_views(out@) =~= rt_views(kept@).subrange(start as int, k + 1));
        }
        k = k + 1;
    }
    Result::Ok(out)
}

/// Filtering distributes over appending one element.
pub proof fn lemma_filter_push<A>(s: Seq<A>, x: A, pred: spec_fn(A) -> bool)
    ensures
        s.push(x).filter(pred) == s.filter(pred) + (if pred(x) {
            seq![x]
        } else {
            Seq::<A>::empty()
        }),
{
    reveal(Seq::filter);
    assert(s.push(x).drop_last() =~= s);
    if pred(x) {
        assert(s.push(x).filter(pred) =~= s.filter(pred) + seq![x]);
    } else {
        assert(s.push(x).filter(pred) =~= s.filter(pred) + Seq::<A>::empty());
    }
}

/// One remote mutation the transport is asked to perform.
pub enum RemoteAction {
    PostReply { pr_number: u32, thread_id: String, body: String },
    ResolveThread { thread_id: String },
}

/// Plan the immediate-reply command once the thread is resolved and
/// the context built: the message is expanded, and, unless this is a
/// dry run, a post follows, then optionally a resolve. A dry run plans
/// no remote action at all and only reports the expanded text.
pub fn plan_reply(
    pr_number: u32,
    thread_id: &str,
    message: &str,
    context: &ReplyContext,
    resolve: bool,
    dry_run: bool,
) -> (r: (String, Vec<RemoteAction>))
    ensures
        r.0@ == expand_spec(context_pairs(*context), message@),
        dry_run ==> r.1@.len() == 0,
        !dry_run ==> ({
            &&& r.1@.len() == (if resolve {
                2int
            } else {
                1int
            })
            &&& (r.1@[0] matches RemoteAction::PostReply { pr_number: p, thread_id: t, body: b }
                && p == pr_number && t@ == thread_id@ && b@ == expand_spec(
                context_pairs(*context),
                message@,
            ))
            &&& (resolve ==> (r.1@[1] matches RemoteAction::ResolveThread { thread_id: t } && t@
                == thread_id@))
        }),
{
    let expander = TemplateExpander::from_context(context);
    let expanded = match expander.expand(message) {
        Result::Ok(s) => s,
        Result::Err(_) => String::new(),
    };
    let mut actions: Vec<RemoteAction> = Vec::new();
    if !dry_run {
        actions.push(
            RemoteAction::PostReply {
                pr_number,
                thread_id: String::from_str(thread_id),
                body: expanded.clone(),
            },
        );
        if resolve {
            actions.push(
                RemoteAction::ResolveThread { thread_id: String::from_str(thread_id) },
            );
        }
    }
    (expanded, actions)
}

/// Decide one staged draft's fate at send time: an empty body is
/// skipped unless forced; otherwise the template is expanded under the
/// shared base context and this thread's reply target, a post is
/// planned, and a resolve when the draft asked for one.
pub fn plan_draft_send(
    pr_number: u32,
    thread_id: &str,
    draft: &DraftEntry,
    base: &BaseReplyContext,
    reply_to: &str,
    force: bool,
) -> (r: Option<(String, Vec<RemoteAction>)>)
    ensures
        draft.body@.len() == 0 && !force ==> r is None,
        draft.body@.len() > 0 || force ==> (r matches Option::Some((msg, acts)) && ({
            let wants_resolve = draft.resolve == Option::Some(true);
            &&& msg@ == expand_spec(base_pairs(*base, reply_to@), draft.body@)
            &&& acts.len() == (if wants_resolve {
                2int
            } else {
                1int
            })
            &&& (acts[0] matches RemoteAction::PostReply { pr_number: p, thread_id: t, body: b }
                && p == pr_number && t@ == thread_id@ && b@ == expand_spec(
                base_pairs(*base, reply_to@),
                draft.body@,
            ))
            &&& (wants_resolve ==> (acts[1] matches RemoteAction::ResolveThread { thread_id: t }
                && t@ == thread_id@))
        })),
{
    if draft.body.as_str().unicode_len() == 0 && !force {
        return Option::None;
    }
    let context = ReplyContext { base: base.clone(), reply_to: String::from_str(reply_to) };
    proof {
        assert(context_pairs(context) =~= base_pairs(*base, reply_to@));
    }
    let expander = TemplateExpander::from_context(&context);
    let msg = match expander.expand(draft.body.as_str()) {
        Result::Ok(s) => s,
        Result::Err(_) => String::new(),
    };
    let wants_resolve = match draft.resolve {
        Option::Some(b) => b,
        Option::None => false,
    };
    let mut acts: Vec<RemoteAction> = Vec::new();
    acts.push(
        RemoteAction::PostReply {
            pr_number,
            thread_id: String::from_str(thread_id),
            body: msg.clone(),
        },
    );
    if wants_resolve {
        acts.push(RemoteAction::ResolveThread { thread_id: String::from_str(thread_id) });
    }
    Option::Some((msg, acts))
}

/// List what a dry-run send would post, without planning any remote
/// action or touching the store: thread, staged body, resolve wish.
pub fn plan_send_dry_run(drafts: &Vec<(String, DraftEntry)>) -> (r: Vec<(String, String, bool)>)
    ensures
        r@.len() == drafts@.len(),
        forall|i: int| 0 <= i < drafts@.len() ==> ((#[trigger] r@[i]).0@ == drafts@[i].0@
            && r@[i].1@ == drafts@[i].1.body@ && r@[i].2 == (drafts@[i].1.resolve
            == Option::Some(true))),
{
    let mut out: Vec<(String, String, bool)> = Vec::new();
    let mut i: usize = 0;
    while i < drafts.len()
        invariant
            i <= drafts@.len(),
            out@.len() == i,
            forall|m: int| 0 <= m < i ==> ((#[trigger] out@[m]).0@ == drafts@[m].0@ && out@[m].1@
                == drafts@[m].1.body@ && out@[m].2 == (drafts@[m].1.resolve
                == Option::Some(true))),
        decreases drafts@.len() - i,
    {
        let p = &drafts[i];
        let wants = match p.1.resolve {
            Option::Some(b) => b,
            Option::None => false,
        };
        out.push((p.0.clone(), p.1.body.clone(), wants));
        i = i + 1;
    }
    out
}

/// The staged entry for a new draft: the unexpanded body, the resolve
/// wish when requested, and the creation timestamp.
pub fn make_draft_entry(message: &str, resolve: bool, timestamp: &str) -> (r: DraftEntry)
    ensures
        r@.body == message@,
        r@.path is None,
        r@.line is None,
        r@.original_comment is None,
        r@.resolve == if resolve {
            Option::Some(true)
        } else {
            Option::<bool>::None
        },
        r@.timestamp == timestamp@,
{
    DraftEntry {
        body: String::from_str(message),
        path: Option::None,
        line: Option::None,
        original_comment: Option::None,
        resolve: if resolve {
            Option::Some(true)
        } else {
            Option::None
        },
        timestamp: String::from_str(timestamp),
    }
}

} // verus!

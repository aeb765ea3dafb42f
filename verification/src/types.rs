//! Core data model: review threads, draft entries, and reply contexts.

use vstd::prelude::*;

verus! {

/// The character sequence held by an optional string.
pub open spec fn opt_str_view(o: Option<String>) -> Option<Seq<char>> {
    match o {
        Option::Some(s) => Option::Some(s@),
        Option::None => Option::None,
    }
}

/// One discussion thread on a pull-request diff, as fetched from the remote.
#[derive(Debug)]
pub struct ReviewThread {
    pub id: String,
    pub path: String,
    pub line: Option<u32>,
    pub diff_side: Option<String>,
    pub body: String,
    pub is_resolved: bool,
}

/// Mathematical image of a `ReviewThread`.
pub ghost struct ReviewThreadV {
    pub id: Seq<char>,
    pub path: Seq<char>,
    pub line: Option<u32>,
    pub diff_side: Option<Seq<char>>,
    pub body: Seq<char>,
    pub is_resolved: bool,
}

impl View for ReviewThread {
    type V = ReviewThreadV;

    open spec fn view(&self) -> ReviewThreadV {
        ReviewThreadV {
            id: self.id@,
            path: self.path@,
            line: self.line,
            diff_side: opt_str_view(self.diff_side),
            body: self.body@,
            is_resolved: self.is_resolved,
        }
    }
}

impl Clone for ReviewThread {
    fn clone(&self) -> (r: Self)
        ensures
            r@ == self@,
    {
        ReviewThread {
            id: self.id.clone(),
            path: self.path.clone(),
            line: self.line,
            diff_side: match &self.diff_side {
                Option::Some(s) => Option::Some(s.clone()),
                Option::None => Option::None,
            },
            body: self.body.clone(),
            is_resolved: self.is_resolved,
        }
    }
}

/// A staged reply, not yet sent.
pub struct DraftEntry {
    pub body: String,
    pub path: Option<String>,
    pub line: Option<u32>,
    pub original_comment: Option<String>,
    pub resolve: Option<bool>,
    pub timestamp: String,
}

/// Mathematical image of a `DraftEntry`.
#[verifier::ext_equal]
pub ghost struct DraftEntryV {
    pub body: Seq<char>,
    pub path: Option<Seq<char>>,
    pub line: Option<u32>,
    pub original_comment: Option<Seq<char>>,
    pub resolve: Option<bool>,
    pub timestamp: Seq<char>,
}

impl View for DraftEntry {
    type V = DraftEntryV;

    open spec fn view(&self) -> DraftEntryV {
        DraftEntryV {
            body: self.body@,
            path: opt_str_view(self.path),
            line: self.line,
            original_comment: opt_str_view(self.original_comment),
            resolve: self.resolve,
            timestamp: self.timestamp@,
        }
    }
}

impl Clone for DraftEntry {
    fn clone(&self) -> (r: Self)
        ensures
            r@ == self@,
    {
        DraftEntry {
            body: self.body.clone(),
            path: match &self.path {
                Option::Some(s) => Option::Some(s.clone()),
                Option::None => Option::None,
            },
            line: self.line,
            original_comment: match &self.original_comment {
                Option::Some(s) => Option::Some(s.clone()),
                Option::None => Option::None,
            },
            resolve: self.resolve,
            timestamp: self.timestamp.clone(),
        }
    }
}

/// Fields shared by every reply sent for one pull request.
pub struct BaseReplyContext {
    pub repo_owner: String,
    pub repo_name: String,
    pub pr_number: String,
    pub date: String,
    pub username: String,
    pub repo_url: String,
    pub base_branch: String,
    pub head_branch: String,
    pub pr_title: String,
    pub author: String,
    pub local_commit: String,
}

impl Clone for BaseReplyContext {
    fn clone(&self) -> (r: Self)
        ensures
            r == *self,
    {
        BaseReplyContext {
            repo_owner: self.repo_owner.clone(),
            repo_name: self.repo_name.clone(),
            pr_number: self.pr_number.clone(),
            date: self.date.clone(),
            username: self.username.clone(),
            repo_url: self.repo_url.clone(),
            base_branch: self.base_branch.clone(),
            head_branch: self.head_branch.clone(),
            pr_title: self.pr_title.clone(),
            author: self.author.clone(),
            local_commit: self.local_commit.clone(),
        }
    }
}

/// The base context together with the reply target resolved per thread.
pub struct ReplyContext {
    pub base: BaseReplyContext,
    pub reply_to: String,
}

impl Clone for ReplyContext {
    fn clone(&self) -> (r: Self)
        ensures
            r == *self,
    {
        ReplyContext { base: self.base.clone(), reply_to: self.reply_to.clone() }
    }
}

} // verus!

//! Draft persistence model: an unordered bag of staged replies keyed by
//! pull-request number and thread identifier. Within one pull request the
//! thread identifiers are unique; adding under an existing key overwrites.

use vstd::prelude::*;
use vstd::string::StringExecFns;
use crate::assoc::{assoc_map, keys_unique, lemma_assoc_at, lemma_assoc_contains,
    lemma_assoc_push, lemma_assoc_remove, lemma_assoc_update};
use crate::error::GhReplyError;
use crate::json::{JsonValue, JsonV, view_json, view_members, render_json, parse_json_spec};
use crate::client::{j_get, j_str};
use crate::types::{DraftEntry, DraftEntryV, opt_str_view};

verus! {

/// The mathematical reading of one pull request's thread list.
pub open spec fn thread_pairs(s: Seq<(String, DraftEntry)>) -> Seq<(Seq<char>, DraftEntryV)> {
    s.map_values(|p: (String, DraftEntry)| (p.0@, p.1@))
}

/// The map a thread list denotes.
pub open spec fn threads_map(s: Seq<(String, DraftEntry)>) -> Map<Seq<char>, DraftEntryV> {
    assoc_map(thread_pairs(s))
}

/// The mathematical reading of the per-pull-request list.
pub open spec fn pr_pairs(s: Seq<(u32, Vec<(String, DraftEntry)>)>) -> Seq<
    (int, Map<Seq<char>, DraftEntryV>),
> {
    s.map_values(|p: (u32, Vec<(String, DraftEntry)>)| (p.0 as int, threads_map(p.1@)))
}

/// The inner map under `pr`, or the empty map when `pr` is absent.
pub open spec fn threads_of(
    m: Map<int, Map<Seq<char>, DraftEntryV>>,
    pr: int,
) -> Map<Seq<char>, DraftEntryV> {
    if m.contains_key(pr) {
        m[pr]
    } else {
        Map::empty()
    }
}

/// All staged drafts, grouped by pull request.
pub struct DraftStore {
    prs: Vec<(u32, Vec<(String, DraftEntry)>)>,
}

impl View for DraftStore {
    type V = Map<int, Map<Seq<char>, DraftEntryV>>;

    closed spec fn view(&self) -> Map<int, Map<Seq<char>, DraftEntryV>> {
        assoc_map(pr_pairs(self.prs@))
    }
}

impl Default for DraftStore {
    /// The empty store.
    fn default() -> (r: Self)
        ensures
            r@ == Map::<int, Map<Seq<char>, DraftEntryV>>::empty(),
            r.wf(),
    {
        let r = DraftStore { prs: Vec::new() };
        proof {
            assert(pr_pairs(r.prs@) =~= Seq::<(int, Map<Seq<char>, DraftEntryV>)>::empty());
        }
        r
    }
}

impl DraftStore {
    /// Keys are unique at both levels.
    pub closed spec fn wf(&self) -> bool {
        &&& keys_unique(pr_pairs(self.prs@))
        &&& forall|i: int| 0 <= i < self.prs@.len() ==> keys_unique(
            thread_pairs(#[trigger] self.prs@[i].1@),
        )
    }

    /// The index holding `pr`, if any.
    fn find_pr(&self, pr: u32) -> (r: Option<usize>)
        ensures
            match r {
                Option::Some(i) => i < self.prs@.len() && self.prs@[i as int].0 == pr,
                Option::None => forall|i: int| 0 <= i < self.prs@.len() ==> (#[trigger] self
                    .prs@[i]).0 != pr,
            },
    {
        let mut i: usize = 0;
        while i < self.prs.len()
            invariant
                i <= self.prs@.len(),
                forall|m: int| 0 <= m < i ==> (#[trigger] self.prs@[m]).0 != pr,
            decreases self.prs@.len() - i,
        {
            if self.prs[i].0 == pr {
                return Option::Some(i);
            }
            i = i + 1;
        }
        Option::None
    }

    /// Stage a draft; overwrites any earlier draft for the same pair.
    pub fn add_draft(&mut self, pr_number: u32, thread_id: &str, draft: DraftEntry)
        requires
            old(self).wf(),
        ensures
            final(self).wf(),
            final(self)@ == old(self)@.insert(
                pr_number as int,
                threads_of(old(self)@, pr_number as int).insert(thread_id@, draft@),
            ),
    {
        let key = String::from_str(thread_id);
        match self.find_pr(pr_number) {
            Option::Some(i) => {
                proof {
                    lemma_assoc_at(pr_pairs(self.prs@), i as int);
                    lemma_assoc_contains(pr_pairs(self.prs@), pr_number as int);
                }
                let ghost prs0 = self.prs@;
                let (prk, mut inner) = self.prs.remove(i);
                match find_thread(&inner, thread_id) {
                    Option::Some(j) => {
                        let ghost inner0 = inner@;
                        inner.remove(j);
                        inner.insert(j, (key, draft));
                        proof {
                            assert(inner@ =~= inner0.update(j as int, (key, draft)));
                            assert(thread_pairs(inner@) =~= thread_pairs(inner0).update(
                                j as int,
                                (thread_id@, draft@),
                            ));
                            assert(thread_pairs(inner0)[j as int].0 == thread_id@);
                            lemma_assoc_update(thread_pairs(inner0), j as int, draft@);
                        }
                    },
                    Option::None => {
                        let ghost inner0 = inner@;
                        inner.push((key, draft));
                        proof {
                            assert(thread_pairs(inner@) =~= thread_pairs(inner0).push(
                                (thread_id@, draft@),
                            ));
                            lemma_assoc_push(thread_pairs(inner0), (thread_id@, draft@));
                            assert(forall|m: int| 0 <= m < inner0.len() ==> (#[trigger]
                            thread_pairs(inner0)[m]).0 != thread_id@);
                        }
                    },
                }
                let ghost prs1 = self.prs@;
                self.prs.insert(i, (prk, inner));
                proof {
                    assert(prs1 =~= prs0.remove(i as int));
                    assert(self.prs@ =~= prs0.update(
                        i as int,
                        (prk, self.prs@[i as int].1),
                    ));
                    assert(pr_pairs(self.prs@) =~= pr_pairs(prs0).update(
                        i as int,
                        (pr_number as int, threads_map(self.prs@[i as int].1@)),
                    ));
                    lemma_assoc_update(
                        pr_pairs(prs0),
                        i as int,
                        threads_map(self.prs@[i as int].1@),
                    );
                }
            },
            Option::None => {
                proof {
                    lemma_assoc_contains(pr_pairs(self.prs@), pr_number as int);
                    assert(forall|m: int| 0 <= m < self.prs@.len() ==> (#[trigger] pr_pairs(
                        self.prs@,
                    )[m]).0 != pr_number as int);
                }
                let ghost prs0 = self.prs@;
                let mut inner: Vec<(String, DraftEntry)> = Vec::new();
                inner.push((key, draft));
                proof {
                    assert(thread_pairs(inner@) =~= Seq::<(Seq<char>, DraftEntryV)>::empty().push(
                        (thread_id@, draft@),
                    ));
                    lemma_assoc_push(
                        Seq::<(Seq<char>, DraftEntryV)>::empty(),
                        (thread_id@, draft@),
                    );
                    assert(threads_map(inner@) == Map::<Seq<char>, DraftEntryV>::empty().insert(
                        thread_id@,
                        draft@,
                    ));
                }
                self.prs.push((pr_number, inner));
                proof {
                    assert(pr_pairs(self.prs@) =~= pr_pairs(prs0).push(
                        (pr_number as int, threads_map(self.prs@[prs0.len() as int].1@)),
                    ));
                    lemma_assoc_push(
                        pr_pairs(prs0),
                        (pr_number as int, threads_map(self.prs@[prs0.len() as int].1@)),
                    );
                }
            },
        }
    }

    /// The staged draft for `(pr_number, thread_id)`, if any.
    pub fn get_draft(&self, pr_number: u32, thread_id: &str) -> (r: Option<&DraftEntry>)
        requires
            self.wf(),
        ensures
            match r {
                Option::Some(e) => threads_of(self@, pr_number as int).contains_key(thread_id@)
                    && e@ == threads_of(self@, pr_number as int)[thread_id@],
                Option::None => !threads_of(self@, pr_number as int).contains_key(thread_id@),
            },
    {
        match self.find_pr(pr_number) {
            Option::Some(i) => {
                proof {
                    lemma_assoc_at(pr_pairs(self.prs@), i as int);
                }
                let inner = &self.prs[i].1;
                match find_thread(inner, thread_id) {
                    Option::Some(j) => {
                        proof {
                            lemma_assoc_at(thread_pairs(inner@), j as int);
                        }
                        Option::Some(&inner[j].1)
                    },
                    Option::None => {
                        proof {
                            lemma_assoc_contains(thread_pairs(inner@), thread_id@);
                        }
                        Option::None
                    },
                }
            },
            Option::None => {
                proof {
                    lemma_assoc_contains(pr_pairs(self.prs@), pr_number as int);
                }
                Option::None
            },
        }
    }

    /// A copy of all drafts staged for `pr_number`, in staging order.
    pub fn get_all_drafts(&self, pr_number: u32) -> (r: Vec<(String, DraftEntry)>)
        requires
            self.wf(),
        ensures
            threads_map(r@) == threads_of(self@, pr_number as int),
            keys_unique(thread_pairs(r@)),
    {
        match self.find_pr(pr_number) {
            Option::Some(i) => {
                proof {
                    lemma_assoc_at(pr_pairs(self.prs@), i as int);
                }
                let inner = &self.prs[i].1;
                let mut out: Vec<(String, DraftEntry)> = Vec::new();
                let mut j: usize = 0;
                while j < inner.len()
                    invariant
                        j <= inner@.len(),
                        out@.len() == j,
                        forall|m: int| 0 <= m < j ==> (#[trigger] out@[m]).0@ == inner@[m].0@
                            && out@[m].1@ == inner@[m].1@,
                    decreases inner@.len() - j,
                {
                    let p = &inner[j];
                    out.push((p.0.clone(), p.1.clone()));
                    j = j + 1;
                }
                proof {
                    assert(thread_pairs(out@) =~= thread_pairs(inner@));
                }
                out
            },
            Option::None => {
                proof {
                    lemma_assoc_contains(pr_pairs(self.prs@), pr_number as int);
                    assert(thread_pairs(Seq::<(String, DraftEntry)>::empty()) =~= Seq::<
                        (Seq<char>, DraftEntryV),
                    >::empty());
                }
                Vec::new()
            },
        }
    }

    /// Unstage one draft; reports whether it existed.
    pub fn remove_draft(&mut self, pr_number: u32, thread_id: &str) -> (r: bool)
        requires
            old(self).wf(),
        ensures
            final(self).wf(),
            r == threads_of(old(self)@, pr_number as int).contains_key(thread_id@),
            final(self)@ == if r {
                old(self)@.insert(
                    pr_number as int,
                    threads_of(old(self)@, pr_number as int).remove(thread_id@),
                )
            } else {
                old(self)@
            },
    {
        match self.find_pr(pr_number) {
            Option::Some(i) => {
                proof {
                    lemma_assoc_at(pr_pairs(self.prs@), i as int);
                }
                let ghost prs0 = self.prs@;
                let (prk, mut inner) = self.prs.remove(i);
                let found = match find_thread(&inner, thread_id) {
                    Option::Some(j) => {
                        let ghost inner0 = inner@;
                        inner.remove(j);
                        proof {
                            assert(thread_pairs(inner@) =~= thread_pairs(inner0).remove(j as int));
                            assert(thread_pairs(inner0)[j as int].0 == thread_id@);
                            lemma_assoc_remove(thread_pairs(inner0), j as int);
                            lemma_assoc_at(thread_pairs(inner0), j as int);
                        }
                        true
                    },
                    Option::None => {
                        proof {
                            lemma_assoc_contains(thread_pairs(inner@), thread_id@);
                        }
                        false
                    },
                };
                let ghost prs1 = self.prs@;
                self.prs.insert(i, (prk, inner));
                proof {
                    assert(prs1 =~= prs0.remove(i as int));
                    assert(self.prs@ =~= prs0.update(
                        i as int,
                        (prk, self.prs@[i as int].1),
                    ));
                    assert(pr_pairs(self.prs@) =~= pr_pairs(prs0).update(
                        i as int,
                        (pr_number as int, threads_map(self.prs@[i as int].1@)),
                    ));
                    lemma_assoc_update(
                        pr_pairs(prs0),
                        i as int,
                        threads_map(self.prs@[i as int].1@),
                    );
                    if !found {
                        assert(threads_map(self.prs@[i as int].1@) == threads_of(
                            assoc_map(pr_pairs(prs0)),
                            pr_number as int,
                        ));
                        assert(assoc_map(pr_pairs(prs0)).insert(
                            pr_number as int,
                            threads_of(assoc_map(pr_pairs(prs0)), pr_number as int),
                        ) =~= assoc_map(pr_pairs(prs0)));
                    }
                }
                found
            },
            Option::None => {
                proof {
                    lemma_assoc_contains(pr_pairs(self.prs@), pr_number as int);
                }
                false
            },
        }
    }

    /// Drop every draft staged for `pr_number`; a no-op when none are.
    pub fn clear_drafts(&mut self, pr_number: u32)
        requires
            old(self).wf(),
        ensures
            final(self).wf(),
            final(self)@ == old(self)@.remove(pr_number as int),
    {
        match self.find_pr(pr_number) {
            Option::Some(i) => {
                let ghost prs0 = self.prs@;
                proof {
                    assert(pr_pairs(prs0)[i as int].0 == pr_number as int);
                    lemma_assoc_remove(pr_pairs(prs0), i as int);
                }
                self.prs.remove(i);
                proof {
                    assert(pr_pairs(self.prs@) =~= pr_pairs(prs0).remove(i as int));
                }
            },
            Option::None => {
                proof {
                    lemma_assoc_contains(pr_pairs(self.prs@), pr_number as int);
                    assert(self@ =~= self@.remove(pr_number as int));
                }
            },
        }
    }
}

/// The index holding `thread_id`, if any.
fn find_thread(inner: &Vec<(String, DraftEntry)>, thread_id: &str) -> (r: Option<usize>)
    ensures
        match r {
            Option::Some(j) => j < inner@.len() && inner@[j as int].0@ == thread_id@,
            Option::None => forall|m: int| 0 <= m < inner@.len() ==> (#[trigger] inner@[m]).0@
                != thread_id@,
        },
{
    let key = String::from_str(thread_id);
    let mut j: usize = 0;
    while j < inner.len()
        invariant
            j <= inner@.len(),
            key@ == thread_id@,
            forall|m: int| 0 <= m < j ==> (#[trigger] inner@[m]).0@ != thread_id@,
        decreases inner@.len() - j,
    {
        if inner[j].0 == key {
            return Option::Some(j);
        }
        j = j + 1;
    }
    Option::None
}

/// Staging a second draft under the same thread key overwrites the first:
/// the store afterward holds exactly what it would hold had only the later
/// draft been staged, and the set of staged threads does not grow again.
pub proof fn lemma_draft_add_overwrites(
    m: Map<int, Map<Seq<char>, DraftEntryV>>,
    pr: int,
    tid: Seq<char>,
    e1: DraftEntryV,
    e2: DraftEntryV,
)
    ensures
        ({
            let once = m.insert(pr, threads_of(m, pr).insert(tid, e1));
            let twice = once.insert(pr, threads_of(once, pr).insert(tid, e2));
            &&& twice == m.insert(pr, threads_of(m, pr).insert(tid, e2))
            &&& twice[pr][tid] == e2
            &&& twice[pr].dom() == once[pr].dom()
        }),
{
    let once = m.insert(pr, threads_of(m, pr).insert(tid, e1));
    let twice = once.insert(pr, threads_of(once, pr).insert(tid, e2));
    assert(threads_of(once, pr) == threads_of(m, pr).insert(tid, e1));
    assert(threads_of(m, pr).insert(tid, e1).insert(tid, e2) =~= threads_of(m, pr).insert(
        tid,
        e2,
    ));
    assert(twice =~= m.insert(pr, threads_of(m, pr).insert(tid, e2)));
    assert(twice[pr].dom() =~= once[pr].dom());
}


// ------------------------------------------------------------------
// The persisted document
// ------------------------------------------------------------------

/// The members of one persisted entry: required body and timestamp,
/// optional fields only when present.
pub open spec fn entry_members(e: DraftEntryV) -> Seq<(Seq<char>, JsonV)> {
    let s0 = seq![("body"@, JsonV::Str(e.body))];
    let s1 = if e.path is Some {
        s0.push(("path"@, JsonV::Str(e.path->Some_0)))
    } else {
        s0
    };
    let s2 = if e.line is Some {
        s1.push(("line"@, JsonV::Int(e.line->Some_0 as int)))
    } else {
        s1
    };
    let s3 = if e.original_comment is Some {
        s2.push(("original_comment"@, JsonV::Str(e.original_comment->Some_0)))
    } else {
        s2
    };
    let s4 = if e.resolve is Some {
        s3.push(("resolve"@, JsonV::Bool(e.resolve->Some_0)))
    } else {
        s3
    };
    s4.push(("timestamp"@, JsonV::Str(e.timestamp)))
}

pub open spec fn entry_json(e: DraftEntryV) -> JsonV {
    JsonV::Obj(entry_members(e))
}

/// One pull request's block: thread identifiers to entries, in order.
pub open spec fn threads_obj(inner: Seq<(String, DraftEntry)>) -> JsonV {
    JsonV::Obj(Seq::new(inner.len(), |i: int| (inner[i].0@, entry_json(inner[i].1@))))
}

/// The whole document: decimal pull-request numbers to blocks.
pub open spec fn store_doc(prs: Seq<(u32, Vec<(String, DraftEntry)>)>) -> JsonV {
    JsonV::Obj(
        Seq::new(
            prs.len(),
            |i: int| (crate::chars::dec_digits(prs[i].0 as nat), threads_obj(prs[i].1@)),
        ),
    )
}

/// Read one entry back; a wrong shape in any known field rejects it.
pub open spec fn decode_entry(j: JsonV) -> Option<DraftEntryV> {
    let body = j_str(j_get(j, "body"@));
    let ts = j_str(j_get(j, "timestamp"@));
    if body is None || ts is None {
        Option::None
    } else if j_get(j, "path"@) is Some && j_str(j_get(j, "path"@)) is None {
        Option::None
    } else if j_get(j, "line"@) matches Option::Some(lv) && !(lv matches JsonV::Int(l) && 0 <= l
        <= 0xffff_ffff) {
        Option::None
    } else if j_get(j, "original_comment"@) is Some && j_str(j_get(j, "original_comment"@))
        is None {
        Option::None
    } else if j_get(j, "resolve"@) matches Option::Some(rv) && !(rv is Bool) {
        Option::None
    } else {
        Option::Some(
            DraftEntryV {
                body: body->Some_0,
                path: j_str(j_get(j, "path"@)),
                line: match j_get(j, "line"@) {
                    Option::Some(JsonV::Int(l)) => Option::Some(l as u32),
                    _ => Option::None,
                },
                original_comment: j_str(j_get(j, "original_comment"@)),
                resolve: match j_get(j, "resolve"@) {
                    Option::Some(JsonV::Bool(b)) => Option::Some(b),
                    _ => Option::None,
                },
                timestamp: ts->Some_0,
            },
        )
    }
}

/// Read one block back into a map, later members winning.
pub open spec fn decode_threads(ms: Seq<(Seq<char>, JsonV)>) -> Option<
    Map<Seq<char>, DraftEntryV>,
>
    decreases ms.len(),
{
    if ms.len() == 0 {
        Option::Some(Map::empty())
    } else {
        match decode_threads(ms.drop_last()) {
            Option::Some(m) => match decode_entry(ms.last().1) {
                Option::Some(e) => Option::Some(m.insert(ms.last().0, e)),
                Option::None => Option::None,
            },
            Option::None => Option::None,
        }
    }
}

/// A canonical decimal key: digits only, no leading zero, in range.
pub open spec fn key_u32(s: Seq<char>) -> Option<int> {
    if s.len() >= 1 && crate::chars::all_digits(s) && (s.len() == 1 || s[0] != '0')
        && crate::chars::dec_val(s) <= 0xffff_ffff {
        Option::Some(crate::chars::dec_val(s))
    } else {
        Option::None
    }
}

/// Read the whole document back, later members winning.
pub open spec fn decode_prs(ms: Seq<(Seq<char>, JsonV)>) -> Option<
    Map<int, Map<Seq<char>, DraftEntryV>>,
>
    decreases ms.len(),
{
    if ms.len() == 0 {
        Option::Some(Map::empty())
    } else {
        match decode_prs(ms.drop_last()) {
            Option::Some(m) => match key_u32(ms.last().0) {
                Option::Some(pr) => match ms.last().1 {
                    JsonV::Obj(inner) => match decode_threads(inner) {
                        Option::Some(tm) => Option::Some(m.insert(pr, tm)),
                        Option::None => Option::None,
                    },
                    _ => Option::None,
                },
                Option::None => Option::None,
            },
            Option::None => Option::None,
        }
    }
}

pub open spec fn decode_store(j: JsonV) -> Option<Map<int, Map<Seq<char>, DraftEntryV>>> {
    match j {
        JsonV::Obj(ms) => decode_prs(ms),
        _ => Option::None,
    }
}

/// What a document text denotes: parse, then decode.
pub open spec fn store_of_doc(text: Seq<char>) -> Option<Map<int, Map<Seq<char>, DraftEntryV>>> {
    match parse_json_spec(text) {
        Option::Some(j) => decode_store(j),
        Option::None => Option::None,
    }
}

impl DraftStore {
    /// The document text this store persists as.
    pub closed spec fn doc_spec(&self) -> Seq<char> {
        render_json(store_doc(self.prs@))
    }

    /// Serialize the full mapping as one document.
    pub fn save(&self) -> (r: String)
        ensures
            r@ == self.doc_spec(),
    {
        let doc = self.store_to_json();
        crate::json::render_document(&doc)
    }

    /// Build the document value.
    fn store_to_json(&self) -> (r: JsonValue)
        ensures
            view_json(r) == store_doc(self.prs@),
    {
        let mut ms: Vec<(String, JsonValue)> = Vec::new();
        let mut i: usize = 0;
        while i < self.prs.len()
            invariant
                i <= self.prs@.len(),
                ms@.len() == i,
                forall|m: int| 0 <= m < i ==> ((#[trigger] ms@[m]).0@
                    == crate::chars::dec_digits(self.prs@[m].0 as nat) && view_json(ms@[m].1)
                    == threads_obj(self.prs@[m].1@)),
            decreases self.prs@.len() - i,
        {
            let key = crate::chars::u64_dec_string(self.prs[i].0 as u64);
            let block = threads_to_json(&self.prs[i].1);
            ms.push((key, block));
            i = i + 1;
        }
        let r = JsonValue::Obj(ms);
        proof {
            crate::json::lemma_view_members(ms@, 0);
            assert(view_json(r)->Obj_0 =~= store_doc(self.prs@)->Obj_0);
            assert(view_json(r) =~~= store_doc(self.prs@));
        }
        r
    }
}

/// Build one block's value.
fn threads_to_json(inner: &Vec<(String, DraftEntry)>) -> (r: JsonValue)
    ensures
        view_json(r) == threads_obj(inner@),
{
    let mut ms: Vec<(String, JsonValue)> = Vec::new();
    let mut i: usize = 0;
    while i < inner.len()
        invariant
            i <= inner@.len(),
            ms@.len() == i,
            forall|m: int| 0 <= m < i ==> ((#[trigger] ms@[m]).0@ == inner@[m].0@ && view_json(
                ms@[m].1,
            ) == entry_json(inner@[m].1@)),
        decreases inner@.len() - i,
    {
        let key = inner[i].0.clone();
        let ev = entry_to_json(&inner[i].1);
        ms.push((key, ev));
        i = i + 1;
    }
    let r = JsonValue::Obj(ms);
    proof {
        crate::json::lemma_view_members(ms@, 0);
        assert(view_json(r)->Obj_0 =~= threads_obj(inner@)->Obj_0);
        assert(view_json(r) =~~= threads_obj(inner@));
    }
    r
}

/// Build one entry's value.
fn entry_to_json(e: &DraftEntry) -> (r: JsonValue)
    ensures
        view_json(r) == entry_json(e@),
{
    let mut ms: Vec<(String, JsonValue)> = Vec::new();
    ms.push((String::from_str("body"), JsonValue::Str(e.body.clone())));
    match &e.path {
        Option::Some(p) => {
            ms.push((String::from_str("path"), JsonValue::Str(p.clone())));
        },
        Option::None => {},
    }
    match e.line {
        Option::Some(l) => {
            ms.push((String::from_str("line"), JsonValue::Int(l as i64)));
        },
        Option::None => {},
    }
    match &e.original_comment {
        Option::Some(o) => {
            ms.push((String::from_str("original_comment"), JsonValue::Str(o.clone())));
        },
        Option::None => {},
    }
    match e.resolve {
        Option::Some(b) => {
            ms.push((String::from_str("resolve"), JsonValue::Bool(b)));
        },
        Option::None => {},
    }
    ms.push((String::from_str("timestamp"), JsonValue::Str(e.timestamp.clone())));
    let r = JsonValue::Obj(ms);
    proof {
        crate::json::lemma_view_members(ms@, 0);
        assert(view_json(r)->Obj_0 =~= entry_members(e@));
        assert(view_json(r) =~~= entry_json(e@));
    }
    r
}


/// Decode one entry value.
fn decode_entry_exec(j: &JsonValue) -> (r: Option<DraftEntry>)
    ensures
        match r {
            Option::Some(e) => decode_entry(j@) == Option::Some(e@),
            Option::None => decode_entry(j@) is None,
        },
{
    let body = match crate::client::obj_get_str(j, "body") {
        Option::Some(s) => s.clone(),
        Option::None => {
            return Option::None;
        },
    };
    let timestamp = match crate::client::obj_get_str(j, "timestamp") {
        Option::Some(s) => s.clone(),
        Option::None => {
            return Option::None;
        },
    };
    let path: Option<String> = match crate::client::obj_get(j, "path") {
        Option::Some(x) => match x {
            JsonValue::Str(s) => Option::Some(s.clone()),
            _ => {
                return Option::None;
            },
        },
        Option::None => Option::None,
    };
    let line: Option<u32> = match crate::client::obj_get(j, "line") {
        Option::Some(x) => match x {
            JsonValue::Int(l) => {
                let lv = *l;
                if 0 <= lv && lv <= 0xffff_ffff {
                    Option::Some(lv as u32)
                } else {
                    return Option::None;
                }
            },
            _ => {
                return Option::None;
            },
        },
        Option::None => Option::None,
    };
    let original_comment: Option<String> = match crate::client::obj_get(j, "original_comment") {
        Option::Some(x) => match x {
            JsonValue::Str(s) => Option::Some(s.clone()),
            _ => {
                return Option::None;
            },
        },
        Option::None => Option::None,
    };
    let resolve: Option<bool> = match crate::client::obj_get(j, "resolve") {
        Option::Some(x) => match x {
            JsonValue::Bool(b) => Option::Some(*b),
            _ => {
                return Option::None;
            },
        },
        Option::None => Option::None,
    };
    let e = DraftEntry { body, path, line, original_comment, resolve, timestamp };
    proof {
        assert(e@ =~= decode_entry(j@)->Some_0);
    }
    Option::Some(e)
}

/// A canonical decimal pull-request key.
#[verifier::loop_isolation(false)]
fn parse_u32_key(s: &String) -> (r: Option<u32>)
    ensures
        match r {
            Option::Some(n) => key_u32(s@) == Option::Some(n as int),
            Option::None => key_u32(s@) is None,
        },
{
    let cs = crate::chars::str_chars(s.as_str());
    let n = cs.len();
    if n == 0 {
        return Option::None;
    }
    let mut acc: u64 = 0;
    let mut k: usize = 0;
    while k < n
        invariant
            k <= n,
            n == cs@.len(),
            cs@ == s@,
            crate::chars::all_digits(cs@.subrange(0, k as int)),
            acc == crate::chars::dec_val(cs@.subrange(0, k as int)),
            acc <= 0xffff_ffff,
        decreases n - k,
    {
        if !crate::chars::digit(cs[k]) {
            return Option::None;
        }
        let d = (cs[k] as u32) - ('0' as u32);
        let ghost run0 = cs@.subrange(0, k as int);
        let ghost run1 = cs@.subrange(0, k + 1);
        proof {
            assert(run1.drop_last() =~= run0);
            assert(run1.last() == cs@[k as int]);
            crate::chars::lemma_dec_val_bounds(run0);
        }
        let next = acc * 10 + (d as u64);
        if next > 0xffff_ffff {
            proof {
                lemma_key_overflow(cs@, k as int);
            }
            return Option::None;
        }
        acc = next;
        k = k + 1;
    }
    proof {
        assert(cs@.subrange(0, n as int) =~= cs@);
    }
    if cs[0] == '0' && n > 1 {
        return Option::None;
    }
    Option::Some(acc as u32)
}

/// A digit run whose prefix already exceeds the bound stays above it.
proof fn lemma_key_overflow(s: Seq<char>, k: int)
    requires
        0 <= k < s.len(),
        crate::chars::all_digits(s.subrange(0, k + 1)),
        crate::chars::dec_val(s.subrange(0, k + 1)) > 0xffff_ffff,
    ensures
        crate::chars::all_digits(s) ==> crate::chars::dec_val(s) > 0xffff_ffff,
    decreases s.len() - k,
{
    if k + 1 == s.len() {
        assert(s.subrange(0, k + 1) =~= s);
    } else {
        let a = s.subrange(0, k + 1);
        let b = s.subrange(0, k + 2);
        assert(b.drop_last() =~= a);
        if crate::chars::all_digits(s) {
            assert(crate::chars::is_digit(b.last())) by {
                assert(b.last() == s[k + 1]);
            }
            assert(crate::chars::all_digits(b)) by {
                assert(forall|m: int| 0 <= m < b.len() ==> b[m] == s[m]);
            }
            assert(crate::chars::dec_val(b) == crate::chars::dec_val(a) * 10
                + crate::chars::digit_val(b.last()));
            assert(crate::chars::dec_val(b) > 0xffff_ffff) by (nonlinear_arith)
                requires
                    crate::chars::dec_val(b) == crate::chars::dec_val(a) * 10
                        + crate::chars::digit_val(b.last()),
                    crate::chars::dec_val(a) > 0xffff_ffff,
                    crate::chars::digit_val(b.last()) >= 0,
            ;
            lemma_key_overflow(s, k + 1);
        }
    }
}

impl DraftStore {
    /// Ensure `pr` has a block, empty when new.
    fn ensure_pr(&mut self, pr_number: u32)
        requires
            old(self).wf(),
        ensures
            final(self).wf(),
            final(self)@ == old(self)@.insert(
                pr_number as int,
                threads_of(old(self)@, pr_number as int),
            ),
    {
        match self.find_pr(pr_number) {
            Option::Some(i) => {
                proof {
                    lemma_assoc_at(pr_pairs(self.prs@), i as int);
                    assert(self@ =~= self@.insert(
                        pr_number as int,
                        threads_of(self@, pr_number as int),
                    ));
                }
            },
            Option::None => {
                proof {
                    lemma_assoc_contains(pr_pairs(self.prs@), pr_number as int);
                    assert(forall|m: int| 0 <= m < self.prs@.len() ==> (#[trigger] pr_pairs(
                        self.prs@,
                    )[m]).0 != pr_number as int);
                }
                let ghost prs0 = self.prs@;
                let inner: Vec<(String, DraftEntry)> = Vec::new();
                self.prs.push((pr_number, inner));
                proof {
                    assert(thread_pairs(Seq::<(String, DraftEntry)>::empty()) =~= Seq::<
                        (Seq<char>, DraftEntryV),
                    >::empty());
                    assert(pr_pairs(self.prs@) =~= pr_pairs(prs0).push(
                        (pr_number as int, Map::<Seq<char>, DraftEntryV>::empty()),
                    ));
                    lemma_assoc_push(
                        pr_pairs(prs0),
                        (pr_number as int, Map::<Seq<char>, DraftEntryV>::empty()),
                    );
                }
            },
        }
    }

    /// Decode a parsed document into a store.
    #[verifier::loop_isolation(false)]
    #[verifier::rlimit(100)]
    #[verifier::spinoff_prover]
    fn store_of_json(v: &JsonValue) -> (r: Option<DraftStore>)
        ensures
            match r {
                Option::Some(st) => st.wf() && decode_store(v@) == Option::Some(st@),
                Option::None => decode_store(v@) is None,
            },
    {
        let ms = match v {
            JsonValue::Obj(ms) => ms,
            _ => {
                return Option::None;
            },
        };
        proof {
            crate::json::lemma_view_members(ms@, 0);
        }
        let ghost vm = view_members(ms@, 0);
        let mut st = DraftStore::default();
        let mut i: usize = 0;
        proof {
            assert(vm.take(0) =~= Seq::<(Seq<char>, JsonV)>::empty());
            assert(decode_prs(vm.take(0)) == Option::Some(st@));
        }
        while i < ms.len()
            invariant
                i <= ms@.len(),
                vm == view_members(ms@, 0),
                vm.len() == ms@.len(),
                forall|m: int| 0 <= m < ms@.len() ==> vm[m] == (
                    (#[trigger] ms@[m]).0@,
                    view_json(ms@[m].1),
                ),
                st.wf(),
                decode_prs(vm.take(i as int)) == Option::Some(st@),
            decreases ms@.len() - i,
        {
            let ghost pre = vm.take(i as int);
            proof {
                assert(vm.take(i + 1).drop_last() =~= pre);
                assert(vm.take(i + 1).last() == vm[i as int]);
            }
            let pr = match parse_u32_key(&ms[i].0) {
                Option::Some(p) => p,
                Option::None => {
                    proof {
                        assert(vm[i as int].0 == ms@[i as int].0@);
                        lemma_decode_prs_fail(vm, i as int);
                    }
                    return Option::None;
                },
            };
            let inner_ms = match &ms[i].1 {
                JsonValue::Obj(inner) => inner,
                _ => {
                    proof {
                        assert(vm[i as int].1 == view_json(ms@[i as int].1));
                        assert(!(vm[i as int].1 is Obj));
                        lemma_decode_prs_fail(vm, i as int);
                    }
                    return Option::None;
                },
            };
            proof {
                crate::json::lemma_view_members(inner_ms@, 0);
            }
            let ghost ivm = view_members(inner_ms@, 0);
            let ghost st_before = st@;
            st.clear_drafts(pr);
            st.ensure_pr(pr);
            proof {
                assert(st@.contains_key(pr as int));
                assert(st@[pr as int] =~= Map::<Seq<char>, DraftEntryV>::empty());
                assert(ivm.take(0) =~= Seq::<(Seq<char>, JsonV)>::empty());
                assert(decode_threads(ivm.take(0)) == Option::Some(st@[pr as int]));
                assert(st@.remove(pr as int) =~= st_before.remove(pr as int));
                assert(st_before == old_outer_map(vm, i as int));
            }
            let mut k: usize = 0;
            while k < inner_ms.len()
                invariant
                    k <= inner_ms@.len(),
                    ivm == view_members(inner_ms@, 0),
                    ivm.len() == inner_ms@.len(),
                    forall|m: int| 0 <= m < inner_ms@.len() ==> ivm[m] == (
                        (#[trigger] inner_ms@[m]).0@,
                        view_json(inner_ms@[m].1),
                    ),
                    st.wf(),
                    st@.contains_key(pr as int),
                    decode_threads(ivm.take(k as int)) == Option::Some(st@[pr as int]),
                    st@.remove(pr as int) == old_outer_map(vm, i as int).remove(pr as int),
                    decode_prs(vm.take(i as int)) == Option::Some(old_outer_map(vm, i as int)),
                decreases inner_ms@.len() - k,
            {
                let ghost ipre = ivm.take(k as int);
                proof {
                    assert(ivm.take(k + 1).drop_last() =~= ipre);
                    assert(ivm.take(k + 1).last() == ivm[k as int]);
                }
                let entry = match decode_entry_exec(&inner_ms[k].1) {
                    Option::Some(e) => e,
                    Option::None => {
                        proof {
                            assert(ivm[k as int].1 == view_json(inner_ms@[k as int].1));
                            lemma_decode_threads_fail(ivm, k as int);
                            assert(vm[i as int].0 == ms@[i as int].0@);
                            assert(key_u32(vm[i as int].0) == Option::Some(pr as int));
                            assert(vm[i as int].1 == view_json(ms@[i as int].1));
                            assert(vm[i as int].1 == JsonV::Obj(ivm));
                            lemma_decode_prs_fail(vm, i as int);
                        }
                        return Option::None;
                    },
                };
                let ghost st_mid = st@;
                st.add_draft(pr, inner_ms[k].0.as_str(), entry);
                proof {
                    assert(ivm[k as int].0 == inner_ms@[k as int].0@);
                    assert(ivm[k as int].1 == view_json(inner_ms@[k as int].1));
                    assert(decode_entry(ivm[k as int].1) == Option::Some(entry@));
                    assert(st@[pr as int] == st_mid[pr as int].insert(
                        inner_ms@[k as int].0@,
                        entry@,
                    ));
                    assert(decode_threads(ivm.take(k + 1)) == Option::Some(st@[pr as int]));
                    assert(st@.remove(pr as int) =~= st_mid.remove(pr as int));
                }
                k = k + 1;
            }
            proof {
                assert(ivm.take(ivm.len() as int) =~= ivm);
                assert(decode_threads(ivm) == Option::Some(st@[pr as int]));
                assert(vm[i as int].0 == ms@[i as int].0@);
                assert(key_u32(vm[i as int].0) == Option::Some(pr as int));
                assert(vm[i as int].1 == view_json(ms@[i as int].1));
                assert(vm[i as int].1 == JsonV::Obj(ivm));
                assert(decode_prs(vm.take(i + 1)) == Option::Some(
                    old_outer_map(vm, i as int).insert(pr as int, st@[pr as int]),
                ));
                assert(st@ =~= st@.remove(pr as int).insert(pr as int, st@[pr as int]));
                assert(old_outer_map(vm, i as int).insert(pr as int, st@[pr as int])
                    =~= old_outer_map(vm, i as int).remove(pr as int).insert(
                    pr as int,
                    st@[pr as int],
                ));
                assert(st@ == old_outer_map(vm, i as int).insert(pr as int, st@[pr as int]));
            }
            i = i + 1;
        }
        proof {
            assert(vm.take(vm.len() as int) =~= vm);
        }
        Option::Some(st)
    }

    /// Load a store from the persisted document, a missing file (no
    /// content) yielding the empty store and malformed text an error.
    pub fn load(content: Option<&str>) -> (r: Result<DraftStore, GhReplyError>)
        ensures
            match content {
                Option::None => r matches Ok(st) && st@ == Map::<
                    int,
                    Map<Seq<char>, DraftEntryV>,
                >::empty() && st.wf(),
                Option::Some(text) => match r {
                    Result::Ok(st) => st.wf() && store_of_doc(text@) == Option::Some(st@),
                    Result::Err(e) => store_of_doc(text@) is None && e is JsonError,
                },
            },
    {
        match content {
            Option::None => Result::Ok(DraftStore::default()),
            Option::Some(text) => match crate::json::parse_document(text) {
                Result::Ok(doc) => match DraftStore::store_of_json(&doc) {
                    Option::Some(st) => Result::Ok(st),
                    Option::None => Result::Err(
                        GhReplyError::JsonError(String::from_str("malformed draft store")),
                    ),
                },
                Result::Err(e) => Result::Err(e),
            },
        }
    }
}

/// The outer map decoded from the first `i` members.
pub open spec fn old_outer_map(vm: Seq<(Seq<char>, JsonV)>, i: int) -> Map<
    int,
    Map<Seq<char>, DraftEntryV>,
> {
    decode_prs(vm.take(i))->Some_0
}

/// A failing member anywhere fails the whole block decode.
proof fn lemma_decode_threads_fail(ms: Seq<(Seq<char>, JsonV)>, k: int)
    requires
        0 <= k < ms.len(),
        decode_entry(ms[k].1) is None,
    ensures
        decode_threads(ms) is None,
    decreases ms.len(),
{
    if ms.len() > 0 {
        if k == ms.len() - 1 {
        } else {
            assert(ms.drop_last()[k] == ms[k]);
            lemma_decode_threads_fail(ms.drop_last(), k);
        }
    }
}

/// A failing member anywhere fails the whole document decode.
proof fn lemma_decode_prs_fail(ms: Seq<(Seq<char>, JsonV)>, k: int)
    requires
        0 <= k < ms.len(),
        key_u32(ms[k].0) is None || !(ms[k].1 is Obj) || (ms[k].1 matches JsonV::Obj(inner)
            && decode_threads(inner) is None),
    ensures
        decode_prs(ms) is None,
    decreases ms.len(),
{
    if ms.len() > 0 {
        if k == ms.len() - 1 {
        } else {
            assert(ms.drop_last()[k] == ms[k]);
            lemma_decode_prs_fail(ms.drop_last(), k);
        }
    }
}


// ------------------------------------------------------------------
// The round trip: a saved document reads back as the same mapping
// ------------------------------------------------------------------

/// What the lookups over one persisted entry's members yield.
#[verifier::rlimit(100)]
#[verifier::spinoff_prover]
proof fn lemma_entry_assoc(e: DraftEntryV)
    ensures
        ({
            let m = assoc_map(entry_members(e));
            &&& m.contains_key("body"@) && m["body"@] == JsonV::Str(e.body)
            &&& m.contains_key("timestamp"@) && m["timestamp"@] == JsonV::Str(e.timestamp)
            &&& m.contains_key("path"@) == (e.path is Some)
            &&& (e.path is Some ==> m["path"@] == JsonV::Str(e.path->Some_0))
            &&& m.contains_key("line"@) == (e.line is Some)
            &&& (e.line is Some ==> m["line"@] == JsonV::Int(e.line->Some_0 as int))
            &&& m.contains_key("original_comment"@) == (e.original_comment is Some)
            &&& (e.original_comment is Some ==> m["original_comment"@] == JsonV::Str(
                e.original_comment->Some_0,
            ))
            &&& m.contains_key("resolve"@) == (e.resolve is Some)
            &&& (e.resolve is Some ==> m["resolve"@] == JsonV::Bool(e.resolve->Some_0))
        }),
{
    broadcast use vstd::string::group_string_axioms;

    reveal_strlit("body");
    reveal_strlit("path");
    reveal_strlit("line");
    reveal_strlit("original_comment");
    reveal_strlit("resolve");
    reveal_strlit("timestamp");
    assert("body"@[0] == 'b');
    assert("path"@[0] == 'p');
    assert("line"@[0] == 'l');
    assert("original_comment"@[0] == 'o');
    assert("resolve"@[0] == 'r');
    assert("timestamp"@[0] == 't');
    assert("body"@ != "path"@);
    assert("body"@ != "line"@);
    assert("body"@ != "original_comment"@);
    assert("body"@ != "resolve"@);
    assert("body"@ != "timestamp"@);
    assert("path"@ != "line"@);
    assert("path"@ != "original_comment"@);
    assert("path"@ != "resolve"@);
    assert("path"@ != "timestamp"@);
    assert("line"@ != "original_comment"@);
    assert("line"@ != "resolve"@);
    assert("line"@ != "timestamp"@);
    assert("original_comment"@ != "resolve"@);
    assert("original_comment"@ != "timestamp"@);
    assert("resolve"@ != "timestamp"@);
    let s0 = seq![("body"@, JsonV::Str(e.body))];
    assert(s0 =~= Seq::<(Seq<char>, JsonV)>::empty().push(("body"@, JsonV::Str(e.body))));
    lemma_assoc_push(Seq::<(Seq<char>, JsonV)>::empty(), ("body"@, JsonV::Str(e.body)));
    let s1 = if e.path is Some {
        s0.push(("path"@, JsonV::Str(e.path->Some_0)))
    } else {
        s0
    };
    if e.path is Some {
        lemma_assoc_push(s0, ("path"@, JsonV::Str(e.path->Some_0)));
    }
    let s2 = if e.line is Some {
        s1.push(("line"@, JsonV::Int(e.line->Some_0 as int)))
    } else {
        s1
    };
    if e.line is Some {
        lemma_assoc_push(s1, ("line"@, JsonV::Int(e.line->Some_0 as int)));
    }
    let s3 = if e.original_comment is Some {
        s2.push(("original_comment"@, JsonV::Str(e.original_comment->Some_0)))
    } else {
        s2
    };
    if e.original_comment is Some {
        lemma_assoc_push(s2, ("original_comment"@, JsonV::Str(e.original_comment->Some_0)));
    }
    let s4 = if e.resolve is Some {
        s3.push(("resolve"@, JsonV::Bool(e.resolve->Some_0)))
    } else {
        s3
    };
    if e.resolve is Some {
        lemma_assoc_push(s3, ("resolve"@, JsonV::Bool(e.resolve->Some_0)));
    }
    lemma_assoc_push(s4, ("timestamp"@, JsonV::Str(e.timestamp)));
    assert(entry_members(e) == s4.push(("timestamp"@, JsonV::Str(e.timestamp))));
}

/// A persisted entry is well-formed and reads back as itself.
proof fn lemma_entry_round(e: DraftEntryV)
    ensures
        crate::json::wf_json(entry_json(e)),
        decode_entry(entry_json(e)) == Option::Some(e),
{
    lemma_entry_assoc(e);
    let ms = entry_members(e);
    assert forall|m: int| 0 <= m < ms.len() implies crate::json::wf_json(
        (#[trigger] ms[m]).1,
    ) by {
        let s0 = seq![("body"@, JsonV::Str(e.body))];
        let s1 = if e.path is Some {
            s0.push(("path"@, JsonV::Str(e.path->Some_0)))
        } else {
            s0
        };
        let s2 = if e.line is Some {
            s1.push(("line"@, JsonV::Int(e.line->Some_0 as int)))
        } else {
            s1
        };
        let s3 = if e.original_comment is Some {
            s2.push(("original_comment"@, JsonV::Str(e.original_comment->Some_0)))
        } else {
            s2
        };
        let s4 = if e.resolve is Some {
            s3.push(("resolve"@, JsonV::Bool(e.resolve->Some_0)))
        } else {
            s3
        };
        assert(ms == s4.push(("timestamp"@, JsonV::Str(e.timestamp))));
    }
    crate::json::lemma_wf_members_all(ms, 0);
    assert(decode_entry(entry_json(e))->Some_0 =~= e);
}

/// A persisted block is well-formed and reads back as its map.
proof fn lemma_threads_round(inner: Seq<(String, DraftEntry)>)
    ensures
        crate::json::wf_json(threads_obj(inner)),
        decode_threads(threads_obj(inner)->Obj_0) == Option::Some(threads_map(inner)),
    decreases inner.len(),
{
    let ms = threads_obj(inner)->Obj_0;
    assert forall|m: int| 0 <= m < ms.len() implies crate::json::wf_json(
        (#[trigger] ms[m]).1,
    ) by {
        lemma_entry_round(inner[m].1@);
    }
    crate::json::lemma_wf_members_all(ms, 0);
    if inner.len() == 0 {
        assert(ms =~= Seq::<(Seq<char>, JsonV)>::empty());
        assert(thread_pairs(inner) =~= Seq::<(Seq<char>, DraftEntryV)>::empty());
    } else {
        let p = inner.drop_last();
        lemma_threads_round(p);
        assert(ms.drop_last() =~= threads_obj(p)->Obj_0);
        assert(ms.last() == (inner.last().0@, entry_json(inner.last().1@)));
        lemma_entry_round(inner.last().1@);
        assert(thread_pairs(inner).drop_last() =~= thread_pairs(p));
        assert(thread_pairs(inner).last() == (inner.last().0@, inner.last().1@));
    }
}

/// The whole persisted document is well-formed and reads back as the
/// saved mapping.
proof fn lemma_prs_round(prs: Seq<(u32, Vec<(String, DraftEntry)>)>)
    ensures
        crate::json::wf_json(store_doc(prs)),
        decode_prs(store_doc(prs)->Obj_0) == Option::Some(assoc_map(pr_pairs(prs))),
    decreases prs.len(),
{
    let ms = store_doc(prs)->Obj_0;
    assert forall|m: int| 0 <= m < ms.len() implies crate::json::wf_json(
        (#[trigger] ms[m]).1,
    ) by {
        lemma_threads_round(prs[m].1@);
    }
    crate::json::lemma_wf_members_all(ms, 0);
    if prs.len() == 0 {
        assert(ms =~= Seq::<(Seq<char>, JsonV)>::empty());
        assert(pr_pairs(prs) =~= Seq::<(int, Map<Seq<char>, DraftEntryV>)>::empty());
    } else {
        let p = prs.drop_last();
        lemma_prs_round(p);
        assert(ms.drop_last() =~= store_doc(p)->Obj_0);
        assert(ms.last() == (
            crate::chars::dec_digits(prs.last().0 as nat),
            threads_obj(prs.last().1@),
        ));
        crate::chars::lemma_dec_digits_val(prs.last().0 as nat);
        assert(key_u32(ms.last().0) == Option::Some(prs.last().0 as int));
        lemma_threads_round(prs.last().1@);
        assert(pr_pairs(prs).drop_last() =~= pr_pairs(p));
        assert(pr_pairs(prs).last() == (prs.last().0 as int, threads_map(prs.last().1@)));
    }
}

/// Saving a store and reading the document back restores exactly the
/// mapping that was saved: the persistence codec inverts.
pub proof fn lemma_store_round_trip(st: DraftStore)
    requires
        st.wf(),
    ensures
        store_of_doc(st.doc_spec()) == Option::Some(st@),
{
    lemma_prs_round(st.prs@);
    crate::json::lemma_json_round_trip(store_doc(st.prs@));
}

} // verus!

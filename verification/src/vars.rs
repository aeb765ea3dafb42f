//! Template expansion: substitutes `{{ name }}` placeholders with values
//! from a flat string-to-string binding list built from a reply context.

use vstd::prelude::*;
use crate::chars::{is_word_char, word_char, str_chars, chars_string, skip_spaces,
    lemma_skip_spaces_bounds, skip_spaces_exec};
use crate::error::GhReplyError;
use crate::types::ReplyContext;

verus! {

/// First position at or after `i` holding a non-word character (or the end).
pub open spec fn word_end(t: Seq<char>, i: int) -> int
    decreases t.len() - i,
    when 0 <= i <= t.len()
{
    if i == t.len() {
        i
    } else if is_word_char(t[i]) {
        word_end(t, i + 1)
    } else {
        i
    }
}

pub proof fn lemma_word_end_bounds(t: Seq<char>, i: int)
    requires
        0 <= i <= t.len(),
    ensures
        i <= word_end(t, i) <= t.len(),
    decreases t.len() - i,
{
    if i < t.len() && is_word_char(t[i]) {
        lemma_word_end_bounds(t, i + 1);
    }
}

/// The placeholder starting at position `i`, if any: two open braces,
/// optional spaces, a non-empty word, optional spaces, two close braces.
/// Yields the word and the position just after the closing braces.
pub open spec fn placeholder_at(t: Seq<char>, i: int) -> Option<(Seq<char>, int)> {
    if 0 <= i && i + 2 <= t.len() && t[i] == '{' && t[i + 1] == '{' {
        let a = skip_spaces(t, i + 2);
        let b = word_end(t, a);
        if b > a {
            let d = skip_spaces(t, b);
            if t.len() - d >= 2 && t[d] == '}' && t[d + 1] == '}' {
                Option::Some((t.subrange(a, b), d + 2))
            } else {
                Option::None
            }
        } else {
            Option::None
        }
    } else {
        Option::None
    }
}

pub proof fn lemma_placeholder_at_bounds(t: Seq<char>, i: int)
    requires
        placeholder_at(t, i) is Some,
    ensures
        i < placeholder_at(t, i)->Some_0.1 <= t.len(),
{
    lemma_skip_spaces_bounds(t, i + 2);
    let a = skip_spaces(t, i + 2);
    lemma_word_end_bounds(t, a);
    let b = word_end(t, a);
    lemma_skip_spaces_bounds(t, b);
}

/// The value bound to `name`, with the latest binding winning.
pub open spec fn lookup(pairs: Seq<(Seq<char>, Seq<char>)>, name: Seq<char>) -> Option<Seq<char>>
    decreases pairs.len(),
{
    if pairs.len() == 0 {
        Option::None
    } else if pairs.last().0 == name {
        Option::Some(pairs.last().1)
    } else {
        lookup(pairs.drop_last(), name)
    }
}

/// Expansion of the template suffix starting at `i`: each placeholder is
/// replaced by its bound value (the empty sequence when unbound), every
/// other character is copied; substituted values are never re-scanned.
pub open spec fn expand_from(
    pairs: Seq<(Seq<char>, Seq<char>)>,
    t: Seq<char>,
    i: int,
) -> Seq<char>
    decreases t.len() - i,
    when 0 <= i <= t.len()
{
    if i == t.len() {
        Seq::empty()
    } else {
        match placeholder_at(t, i) {
            Option::Some((name, end)) => {
                proof {
                    lemma_placeholder_at_bounds(t, i);
                }
                (match lookup(pairs, name) {
                    Option::Some(v) => v,
                    Option::None => Seq::empty(),
                }) + expand_from(pairs, t, end)
            },
            Option::None => seq![t[i]] + expand_from(pairs, t, i + 1),
        }
    }
}

/// Full expansion of a template under a binding list.
pub open spec fn expand_spec(pairs: Seq<(Seq<char>, Seq<char>)>, t: Seq<char>) -> Seq<char> {
    expand_from(pairs, t, 0)
}

/// The standard binding list a reply context yields: one pair per
/// recognized variable.
pub open spec fn base_pairs(base: crate::types::BaseReplyContext, reply_to: Seq<char>) -> Seq<
    (Seq<char>, Seq<char>),
> {
    seq![
        ("pr_number"@, base.pr_number@),
        ("reply_to"@, reply_to),
        ("author"@, base.author@),
        ("repo_owner"@, base.repo_owner@),
        ("repo_name"@, base.repo_name@),
        ("repo_url"@, base.repo_url@),
        ("username"@, base.username@),
        ("date"@, base.date@),
        ("pr_title"@, base.pr_title@),
        ("base_branch"@, base.base_branch@),
        ("head_branch"@, base.head_branch@),
        ("local_commit"@, base.local_commit@),
    ]
}

/// The binding list of a full reply context.
pub open spec fn context_pairs(c: crate::types::ReplyContext) -> Seq<(Seq<char>, Seq<char>)> {
    base_pairs(c.base, c.reply_to@)
}

/// Binds placeholder names to replacement values.
pub struct TemplateExpander {
    vars: Vec<(Vec<char>, Vec<char>)>,
}

impl TemplateExpander {
    /// The binding list, in insertion order.
    pub closed spec fn pairs(&self) -> Seq<(Seq<char>, Seq<char>)> {
        self.vars@.map_values(|p: (Vec<char>, Vec<char>)| (p.0@, p.1@))
    }

    /// An expander with no bindings.
    pub fn new() -> (r: Self)
        ensures
            r.pairs() == Seq::<(Seq<char>, Seq<char>)>::empty(),
    {
        let r = TemplateExpander { vars: Vec::new() };
        proof {
            assert(r.pairs() =~= Seq::<(Seq<char>, Seq<char>)>::empty());
        }
        r
    }

    /// Add one binding; it shadows any earlier binding of the same name.
    pub fn add_var(&mut self, key: &str, value: &str)
        ensures
            final(self).pairs() == old(self).pairs().push((key@, value@)),
    {
        let k = str_chars(key);
        let v = str_chars(value);
        self.vars.push((k, v));
        proof {
            assert(final(self).pairs() =~= old(self).pairs().push((key@, value@)));
        }
    }

    /// The standard bindings derived from a reply context.
    pub fn from_context(context: &ReplyContext) -> (r: Self)
        ensures
            r.pairs() == context_pairs(*context),
    {
        let mut r = Self::new();
        r.add_var("pr_number", context.base.pr_number.as_str());
        r.add_var("reply_to", context.reply_to.as_str());
        r.add_var("author", context.base.author.as_str());
        r.add_var("repo_owner", context.base.repo_owner.as_str());
        r.add_var("repo_name", context.base.repo_name.as_str());
        r.add_var("repo_url", context.base.repo_url.as_str());
        r.add_var("username", context.base.username.as_str());
        r.add_var("date", context.base.date.as_str());
        r.add_var("pr_title", context.base.pr_title.as_str());
        r.add_var("base_branch", context.base.base_branch.as_str());
        r.add_var("head_branch", context.base.head_branch.as_str());
        r.add_var("local_commit", context.base.local_commit.as_str());
        proof {
            assert(r.pairs() =~= seq![
                ("pr_number"@, context.base.pr_number@),
                ("reply_to"@, context.reply_to@),
                ("author"@, context.base.author@),
                ("repo_owner"@, context.base.repo_owner@),
                ("repo_name"@, context.base.repo_name@),
                ("repo_url"@, context.base.repo_url@),
                ("username"@, context.base.username@),
                ("date"@, context.base.date@),
                ("pr_title"@, context.base.pr_title@),
                ("base_branch"@, context.base.base_branch@),
                ("head_branch"@, context.base.head_branch@),
                ("local_commit"@, context.base.local_commit@),
            ]);
        }
        r
    }

    /// Expand every placeholder in `template`. Never fails: unknown
    /// placeholders expand to the empty string.
    pub fn expand(&self, template: &str) -> (r: Result<String, GhReplyError>)
        ensures
            r is Ok,
            r matches Ok(s) ==> s@ == expand_spec(self.pairs(), template@),
    {
        let t = str_chars(template);
        let mut out: Vec<char> = Vec::new();
        let mut i: usize = 0;
        proof {
            assert(out@ + expand_from(self.pairs(), t@, 0) =~= expand_from(self.pairs(), t@, 0));
        }
        while i < t.len()
            invariant
                i <= t@.len(),
                t@ == template@,
                expand_from(self.pairs(), t@, 0) == out@ + expand_from(
                    self.pairs(),
                    t@,
                    i as int,
                ),
            decreases t@.len() - i,
        {
            let ghost pairs = self.pairs();
            match find_placeholder(&t, i) {
                Option::Some((a, b, end)) => {
                    proof {
                        lemma_placeholder_at_bounds(t@, i as int);
                    }
                    let ghost out0 = out@;
                    match self.lookup_range(&t, a, b) {
                        Option::Some(v) => {
                            append_chars(&mut out, v);
                        },
                        Option::None => {},
                    }
                    proof {
                        let val = match lookup(pairs, t@.subrange(a as int, b as int)) {
                            Option::Some(v) => v,
                            Option::None => Seq::<char>::empty(),
                        };
                        assert(out@ =~= out0 + val);
                        assert(expand_from(pairs, t@, i as int) == val + expand_from(
                            pairs,
                            t@,
                            end as int,
                        ));
                        assert((out0 + val) + expand_from(pairs, t@, end as int) =~= out0 + (val
                            + expand_from(pairs, t@, end as int)));
                    }
                    i = end;
                },
                Option::None => {
                    let c = t[i];
                    out.push(c);
                    proof {
                        assert(expand_from(pairs, t@, i as int) == seq![t@[i as int]]
                            + expand_from(pairs, t@, i + 1));
                        assert(out@ + expand_from(pairs, t@, i + 1) =~= out@.drop_last() + (seq![
                            t@[i as int],
                        ] + expand_from(pairs, t@, i + 1)));
                    }
                    i = i + 1;
                },
            }
        }
        proof {
            assert(expand_from(self.pairs(), t@, i as int) == Seq::<char>::empty());
            assert(out@ + Seq::<char>::empty() =~= out@);
        }
        Ok(chars_string(&out))
    }

    /// Look up the binding for the name held in `t[start..end]`.
    fn lookup_range(&self, t: &Vec<char>, start: usize, end: usize) -> (r: Option<&Vec<char>>)
        requires
            start <= end <= t@.len(),
        ensures
            match r {
                Option::Some(v) => lookup(self.pairs(), t@.subrange(start as int, end as int))
                    == Option::Some(v@),
                Option::None => lookup(self.pairs(), t@.subrange(start as int, end as int))
                    is None,
            },
    {
        let ghost name = t@.subrange(start as int, end as int);
        let mut j = self.vars.len();
        proof {
            assert(self.pairs().take(j as int) =~= self.pairs());
        }
        while j > 0
            invariant
                j <= self.vars.len(),
                start <= end <= t@.len(),
                name == t@.subrange(start as int, end as int),
                lookup(self.pairs(), name) == lookup(self.pairs().take(j as int), name),
            decreases j,
        {
            j = j - 1;
            let hit = eq_range(&self.vars[j].0, t, start, end);
            proof {
                let pre = self.pairs().take(j + 1 as int);
                assert(pre.last() == self.pairs()[j as int]);
                assert(pre.drop_last() =~= self.pairs().take(j as int));
            }
            if hit {
                return Option::Some(&self.vars[j].1);
            }
        }
        proof {
            assert(self.pairs().take(0) =~= Seq::<(Seq<char>, Seq<char>)>::empty());
        }
        Option::None
    }
}

/// Does `a` hold exactly the characters `t[start..end]`?
fn eq_range(a: &Vec<char>, t: &Vec<char>, start: usize, end: usize) -> (r: bool)
    requires
        start <= end <= t@.len(),
    ensures
        r == (a@ == t@.subrange(start as int, end as int)),
{
    let n = end - start;
    if a.len() != n {
        proof {
            assert(a@ != t@.subrange(start as int, end as int));
        }
        return false;
    }
    let mut k: usize = 0;
    while k < n
        invariant
            k <= n,
            n == end - start,
            start <= end <= t@.len(),
            a@.len() == n,
            forall|m: int| 0 <= m < k ==> a@[m] == t@[start + m],
        decreases n - k,
    {
        if a[k] != t[start + k] {
            proof {
                assert(a@[k as int] != t@.subrange(start as int, end as int)[k as int]);
            }
            return false;
        }
        k = k + 1;
    }
    proof {
        assert(a@ =~= t@.subrange(start as int, end as int));
    }
    true
}

/// Append all of `v` to `out`.
fn append_chars(out: &mut Vec<char>, v: &Vec<char>)
    ensures
        final(out)@ == old(out)@ + v@,
{
    let mut k: usize = 0;
    while k < v.len()
        invariant
            k <= v@.len(),
            out@ == old(out)@ + v@.take(k as int),
        decreases v@.len() - k,
    {
        let c = v[k];
        out.push(c);
        proof {
            assert(old(out)@ + v@.take(k as int) + seq![v@[k as int]] =~= old(out)@ + v@.take(
                k + 1,
            ));
        }
        k = k + 1;
    }
    proof {
        assert(old(out)@ + v@.take(v@.len() as int) =~= old(out)@ + v@);
    }
}

/// Find the placeholder starting at `i`, returning the name range and the
/// position after the closing braces.
fn find_placeholder(t: &Vec<char>, i: usize) -> (r: Option<(usize, usize, usize)>)
    requires
        i < t@.len(),
    ensures
        match r {
            Option::Some((a, b, end)) => {
                &&& placeholder_at(t@, i as int) == Option::Some((
                    t@.subrange(a as int, b as int),
                    end as int,
                ))
                &&& i < end <= t@.len()
                &&& a <= b <= t@.len()
            },
            Option::None => placeholder_at(t@, i as int) is None,
        },
{
    if t.len() - i < 2 || t[i] != '{' || t[i + 1] != '{' {
        return Option::None;
    }
    let a = skip_spaces_exec(t, i + 2);
    let b = word_end_exec(t, a);
    if b == a {
        return Option::None;
    }
    let d = skip_spaces_exec(t, b);
    if t.len() - d >= 2 && t[d] == '}' && t[d + 1] == '}' {
        proof {
            lemma_placeholder_at_bounds(t@, i as int);
        }
        Option::Some((a, b, d + 2))
    } else {
        Option::None
    }
}

fn word_end_exec(t: &Vec<char>, i: usize) -> (r: usize)
    requires
        i <= t@.len(),
    ensures
        r == word_end(t@, i as int),
        i <= r <= t@.len(),
{
    let mut j = i;
    while j < t.len() && word_char(t[j])
        invariant
            i <= j <= t@.len(),
            word_end(t@, i as int) == word_end(t@, j as int),
        decreases t@.len() - j,
    {
        j = j + 1;
    }
    j
}

/// Expansion is the identity on templates holding no two adjacent open
/// braces: with no placeholder syntax at all, nothing is rewritten.
pub proof fn lemma_expand_identity_no_syntax(pairs: Seq<(Seq<char>, Seq<char>)>, t: Seq<char>)
    requires
        forall|j: int| 0 <= j < t.len() - 1 ==> !((#[trigger] t[j]) == '{' && t[j + 1] == '{'),
    ensures
        expand_spec(pairs, t) == t,
{
    assert forall|i: int| 0 <= i < t.len() implies placeholder_at(t, i) is None by {
        if i + 2 <= t.len() {
            assert(!(t[i] == '{' && t[i + 1] == '{'));
        }
    }
    lemma_expand_fixed_point(pairs, t, 0);
    assert(t.skip(0) =~= t);
}

/// Expansion leaves the suffix unchanged when no position starts a
/// placeholder.
pub proof fn lemma_expand_fixed_point(pairs: Seq<(Seq<char>, Seq<char>)>, t: Seq<char>, i: int)
    requires
        0 <= i <= t.len(),
        forall|j: int| 0 <= j < t.len() ==> placeholder_at(t, j) is None,
    ensures
        expand_from(pairs, t, i) == t.skip(i),
    decreases t.len() - i,
{
    if i == t.len() {
        assert(t.skip(i) =~= Seq::<char>::empty());
    } else {
        lemma_expand_fixed_point(pairs, t, i + 1);
        assert(expand_from(pairs, t, i) == seq![t[i]] + t.skip(i + 1));
        assert(seq![t[i]] + t.skip(i + 1) =~= t.skip(i));
    }
}

} // verus!

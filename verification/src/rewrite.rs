//! Rewriting a script so that what it runs and reads is protected.
//!
//! A command that runs a shell script gets scriptbox put before it; the file that
//! a `source` names is replaced by the path of an immutable copy. Everything else
//! stays as it is.

use vstd::prelude::*;
use vstd::slice::slice_subrange;
use vstd::string::*;

use crate::interpreter;
use crate::sites::{Category, Site, SiteModel};
use crate::text;

verus! {

/// What was done about a site.
#[derive(Clone, Copy, Debug, PartialEq, Eq, Structural)]
pub enum Outcome {
    /// The command runs under scriptbox.
    Wrapped,
    /// The file is read from an immutable copy.
    Frozen,
    /// Nothing: no file was found, or more than one.
    Unresolved,
    /// Nothing: the name is only known when the script runs.
    Dynamic,
    /// Nothing: the interpreter reads its whole file first.
    Immune,
    /// Nothing.
    Left,
}

impl Outcome {
    /// The words for reports.
    pub open spec fn says(self) -> Seq<char> {
        match self {
            Outcome::Wrapped => "wrapped"@,
            Outcome::Frozen => "frozen"@,
            Outcome::Unresolved => "left - unresolved/ambiguous"@,
            Outcome::Dynamic => "left - dynamic"@,
            Outcome::Immune => "left - immune"@,
            Outcome::Left => "left"@,
        }
    }

    /// The words for reports.
    pub fn text(self) -> (r: &'static str)
        ensures
            r@ == self.says(),
    {
        match self {
            Outcome::Wrapped => "wrapped",
            Outcome::Frozen => "frozen",
            Outcome::Unresolved => "left - unresolved/ambiguous",
            Outcome::Dynamic => "left - dynamic",
            Outcome::Immune => "left - immune",
            Outcome::Left => "left",
        }
    }
}

/// The replacement of the characters from `start` up to `end` by `text`.
#[derive(Debug, PartialEq, Eq)]
pub struct Edit {
    /// The index of the first character that is replaced.
    pub start: usize,
    /// The index after the last one.
    pub end: usize,
    /// What takes their place.
    pub text: String,
}

/// The model of an edit.
pub struct EditModel {
    /// The index of the first character that is replaced.
    pub start: usize,
    /// The index after the last one.
    pub end: usize,
    /// What takes their place.
    pub text: Seq<char>,
}

impl View for Edit {
    type V = EditModel;

    open spec fn view(&self) -> EditModel {
        EditModel { start: self.start, end: self.end, text: self.text@ }
    }
}

/// The views of edits.
pub open spec fn views(v: Seq<Edit>) -> Seq<EditModel> {
    v.map_values(|e: Edit| e@)
}

/// The texts of the answers to the sites.
pub open spec fn answer_texts(v: Seq<Option<String>>) -> Seq<Option<Seq<char>>> {
    v.map_values(|a: Option<String>| crate::frontmatter::opt(a))
}

/// What is put before a command so that it runs under the scriptbox at `exe`.
pub open spec fn prefix_for(exe: Seq<char>) -> Seq<char> {
    interpreter::squoted(exe) + " --subscripts=freeze "@
}

/// What is put before a command so that it runs under the scriptbox at `exe`.
pub fn wrap_prefix(exe: &str) -> (r: String)
    ensures
        r@ == prefix_for(exe@),
{
    let mut out = interpreter::shell_squote(exe);
    out.append(" --subscripts=freeze ");
    out
}

/// The edit for a site of a text of `len` characters; `answer` is the path of
/// the immutable copy of the file that a `source` names, if there is one.
pub open spec fn edit_for(
    site: SiteModel,
    answer: Option<Seq<char>>,
    prefix: Seq<char>,
    len: nat,
) -> Option<EditModel> {
    if !site.resolvable {
        None
    } else {
        match site.category {
            Category::ShellChild => if site.cmd_offset <= len {
                Some(EditModel { start: site.cmd_offset, end: site.cmd_offset, text: prefix })
            } else {
                None
            },
            Category::Source => match (answer, site.arg_span) {
                (Some(path), Some(span)) => if span.0 <= span.1 <= len {
                    Some(EditModel { start: span.0, end: span.1, text: path })
                } else {
                    None
                },
                _ => None,
            },
            Category::OtherChild => None,
        }
    }
}

/// What is done about a site of a text of `len` characters.
pub open spec fn outcome_for(
    site: SiteModel,
    answer: Option<Seq<char>>,
    prefix: Seq<char>,
    len: nat,
) -> Outcome {
    let edited = edit_for(site, answer, prefix, len) is Some;
    if !site.resolvable {
        Outcome::Dynamic
    } else {
        match site.category {
            Category::ShellChild => if edited {
                Outcome::Wrapped
            } else {
                Outcome::Left
            },
            Category::Source => if edited {
                Outcome::Frozen
            } else {
                Outcome::Unresolved
            },
            Category::OtherChild => Outcome::Immune,
        }
    }
}

/// The edits for the sites of a text of `len` characters, in the order of the
/// sites.
pub open spec fn edits_for(
    sites: Seq<SiteModel>,
    answers: Seq<Option<Seq<char>>>,
    prefix: Seq<char>,
    len: nat,
) -> Seq<EditModel>
    decreases sites.len(),
{
    if sites.len() == 0 {
        seq![]
    } else {
        let before = edits_for(sites.drop_last(), answers, prefix, len);
        match edit_for(sites.last(), answers[sites.len() - 1], prefix, len) {
            Some(e) => before.push(e),
            None => before,
        }
    }
}

/// What is done about the sites of a text of `len` characters.
pub open spec fn outcomes_for(
    sites: Seq<SiteModel>,
    answers: Seq<Option<Seq<char>>>,
    prefix: Seq<char>,
    len: nat,
) -> Seq<Outcome> {
    Seq::new(sites.len(), |i: int| outcome_for(sites[i], answers[i], prefix, len))
}

/// The text after an edit; one that does not lie in the text changes nothing.
pub open spec fn replaced(s: Seq<char>, e: EditModel) -> Seq<char> {
    if e.start <= e.end <= s.len() {
        s.take(e.start as int) + e.text + s.skip(e.end as int)
    } else {
        s
    }
}

/// The text after edits, made one after the other.
pub open spec fn applied(s: Seq<char>, edits: Seq<EditModel>) -> Seq<char>
    decreases edits.len(),
{
    if edits.len() == 0 {
        s
    } else {
        replaced(applied(s, edits.drop_last()), edits.last())
    }
}

/// Edits from the last start to the first, with one more among them.
pub open spec fn with_edit(sorted: Seq<EditModel>, e: EditModel) -> Seq<EditModel>
    decreases sorted.len(),
{
    if sorted.len() > 0 && sorted.last().start < e.start {
        with_edit(sorted.drop_last(), e).push(sorted.last())
    } else {
        sorted.push(e)
    }
}

/// Edits from the last start to the first.
pub open spec fn from_the_end(edits: Seq<EditModel>) -> Seq<EditModel>
    decreases edits.len(),
{
    if edits.len() == 0 {
        seq![]
    } else {
        with_edit(from_the_end(edits.drop_last()), edits.last())
    }
}

/// The text with the edits made, from the last to the first, so that no edit
/// moves another.
pub open spec fn edited(s: Seq<char>, edits: Seq<EditModel>) -> Seq<char> {
    applied(s, from_the_end(edits))
}

/// The text with its sites rewritten.
pub open spec fn rewritten(
    s: Seq<char>,
    sites: Seq<SiteModel>,
    answers: Seq<Option<Seq<char>>>,
    prefix: Seq<char>,
) -> Seq<char> {
    edited(s, edits_for(sites, answers, prefix, s.len()))
}

/// The edit for a site, if it gets one, and what is done about it.
fn plan_site(site: &Site, answer: &Option<String>, prefix: &str, len: usize) -> (r: (
    Option<Edit>,
    Outcome,
))
    ensures
        match r.0 {
            Some(e) => edit_for(site@, crate::frontmatter::opt(*answer), prefix@, len as nat)
                == Some(e@),
            None => edit_for(site@, crate::frontmatter::opt(*answer), prefix@, len as nat) is None,
        },
        r.1 == outcome_for(site@, crate::frontmatter::opt(*answer), prefix@, len as nat),
{
    if !site.resolvable {
        return (None, Outcome::Dynamic);
    }
    match site.category {
        Category::ShellChild => {
            let at = site.cmd_offset;
            if at <= len {
                (Some(Edit { start: at, end: at, text: prefix.to_owned() }), Outcome::Wrapped)
            } else {
                (None, Outcome::Left)
            }
        },
        Category::Source => match (answer, &site.arg_span) {
            (Some(path), Some(span)) => {
                if span.0 <= span.1 && span.1 <= len {
                    (
                        Some(Edit { start: span.0, end: span.1, text: path.clone() }),
                        Outcome::Frozen,
                    )
                } else {
                    (None, Outcome::Unresolved)
                }
            },
            _ => (None, Outcome::Unresolved),
        },
        Category::OtherChild => (None, Outcome::Immune),
    }
}

/// The edits for the sites of a text of `len` characters and what is done about
/// each site, side by side: no site is said to be edited that is not.
pub fn plan_edits(
    sites: &Vec<Site>,
    answers: &Vec<Option<String>>,
    prefix: &str,
    len: usize,
) -> (r: (Vec<Edit>, Vec<Outcome>))
    requires
        sites@.len() == answers@.len(),
    ensures
        views(r.0@) == edits_for(
            crate::sites::views(sites@),
            answer_texts(answers@),
            prefix@,
            len as nat,
        ),
        r.1@ == outcomes_for(
            crate::sites::views(sites@),
            answer_texts(answers@),
            prefix@,
            len as nat,
        ),
{
    let ghost all = crate::sites::views(sites@);
    let ghost texts = answer_texts(answers@);
    let mut edits: Vec<Edit> = Vec::new();
    let mut outcomes: Vec<Outcome> = Vec::new();
    let mut i: usize = 0;
    assert(views(edits@) =~= seq![]);
    while i < sites.len()
        invariant
            i <= sites@.len(),
            sites@.len() == answers@.len(),
            all == crate::sites::views(sites@),
            texts == answer_texts(answers@),
            views(edits@) == edits_for(all.take(i as int), texts, prefix@, len as nat),
            outcomes@ =~= outcomes_for(all, texts, prefix@, len as nat).take(i as int),
        decreases sites@.len() - i,
    {
        let ghost before = edits@;
        assert(all.take(i + 1).drop_last() =~= all.take(i as int));
        assert(all.take(i + 1).last() == sites@[i as int]@);
        let (edit, outcome) = plan_site(&sites[i], &answers[i], prefix, len);
        if let Some(e) = edit {
            edits.push(e);
            assert(views(edits@) =~= views(before).push(e@));
        }
        outcomes.push(outcome);
        i = i + 1;
    }
    assert(all.take(i as int) =~= all);
    (edits, outcomes)
}

/// Put one more edit among edits from the last start to the first.
fn add_edit(sorted: &mut Vec<Edit>, e: Edit)
    ensures
        views(final(sorted)@) == with_edit(views(old(sorted)@), e@),
{
    let ghost all = sorted@;
    let mut n: usize = sorted.len();
    assert(all.take(n as int) =~= all);
    assert(all.skip(n as int) =~= seq![]);
    assert(with_edit(views(all), e@) =~= with_edit(views(all.take(n as int)), e@) + views(
        all.skip(n as int),
    ));
    while n > 0 && sorted[n - 1].start < e.start
        invariant
            n <= sorted@.len(),
            sorted@ == all,
            with_edit(views(all), e@) == with_edit(views(all.take(n as int)), e@) + views(
                all.skip(n as int),
            ),
        decreases n,
    {
        assert(views(all.take(n as int)).drop_last() =~= views(all.take(n - 1)));
        assert(views(all.skip(n - 1)) =~= seq![all[n - 1]@] + views(all.skip(n as int)));
        assert(with_edit(views(all.take(n as int)), e@) == with_edit(
            views(all.take(n - 1)),
            e@,
        ).push(all[n - 1]@));
        n = n - 1;
        assert(with_edit(views(all), e@) =~= with_edit(views(all.take(n as int)), e@) + views(
            all.skip(n as int),
        ));
    }
    assert(n > 0 ==> views(all.take(n as int)).last() == all[n - 1]@);
    sorted.insert(n, e);
    assert(views(sorted@) =~= views(all.take(n as int)).push(e@) + views(all.skip(n as int)));
}

/// Make an edit; one that does not lie in the text changes nothing.
fn make_edit(s: Vec<char>, e: &Edit) -> (r: Vec<char>)
    ensures
        r@ == replaced(s@, e@),
{
    if e.start <= e.end && e.end <= s.len() {
        let mut out = vstd::slice::slice_to_vec(slice_subrange(&s, 0, e.start));
        let text = text::chars_of(e.text.as_str());
        out.extend_from_slice(&text);
        out.extend_from_slice(slice_subrange(&s, e.end, s.len()));
        assert(out@ =~= replaced(s@, e@));
        out
    } else {
        s
    }
}

/// The text with the edits made, from the last to the first.
pub fn apply_edits(s: &[char], edits: &Vec<Edit>) -> (r: Vec<char>)
    ensures
        r@ == edited(s@, views(edits@)),
{
    let ghost all = views(edits@);
    let mut sorted: Vec<Edit> = Vec::new();
    let mut i: usize = 0;
    assert(views(sorted@) =~= seq![]);
    assert(all.take(0) =~= seq![]);
    while i < edits.len()
        invariant
            i <= edits@.len(),
            all == views(edits@),
            views(sorted@) == from_the_end(all.take(i as int)),
        decreases edits@.len() - i,
    {
        assert(all.take(i + 1).drop_last() =~= all.take(i as int));
        assert(all.take(i + 1).last() == edits@[i as int]@);
        let e = &edits[i];
        add_edit(&mut sorted, Edit { start: e.start, end: e.end, text: e.text.clone() });
        i = i + 1;
    }
    assert(all.take(i as int) =~= all);

    let ghost order = views(sorted@);
    let mut out = vstd::slice::slice_to_vec(s);
    let mut j: usize = 0;
    assert(order.take(0) =~= seq![]);
    while j < sorted.len()
        invariant
            j <= sorted@.len(),
            order == views(sorted@),
            out@ == applied(s@, order.take(j as int)),
        decreases sorted@.len() - j,
    {
        assert(order.take(j + 1).drop_last() =~= order.take(j as int));
        assert(order.take(j + 1).last() == sorted@[j as int]@);
        out = make_edit(out, &sorted[j]);
        j = j + 1;
    }
    assert(order.take(j as int) =~= order);
    out
}

/// The text with its sites rewritten, and what is done about each site.
pub fn rewrite_sites(
    s: &[char],
    sites: &Vec<Site>,
    answers: &Vec<Option<String>>,
    prefix: &str,
) -> (r: (Vec<char>, Vec<Outcome>))
    requires
        sites@.len() == answers@.len(),
    ensures
        r.0@ == rewritten(
            s@,
            crate::sites::views(sites@),
            answer_texts(answers@),
            prefix@,
        ),
        r.1@ == outcomes_for(
            crate::sites::views(sites@),
            answer_texts(answers@),
            prefix@,
            s@.len(),
        ),
{
    let (edits, outcomes) = plan_edits(sites, answers, prefix, s.len());
    (apply_edits(s, &edits), outcomes)
}

// ---------------------------------------------------------------------------
// What rewriting does and what it keeps

/// Edits that lie in a text of `len` characters, one after the other.
pub open spec fn apart(edits: Seq<EditModel>, len: nat) -> bool {
    &&& forall|i: int|
        0 <= i < edits.len() ==> (#[trigger] edits[i]).start <= edits[i].end <= len
    &&& forall|i: int, j: int|
        0 <= i < j < edits.len() ==> #[trigger] edits[i].end <= #[trigger] edits[j].start
            && edits[i].start < edits[j].start
}

/// The text with each edited stretch replaced, and everything between them as it
/// was.
pub open spec fn pieced(s: Seq<char>, edits: Seq<EditModel>) -> Seq<char>
    decreases edits.len(),
{
    if edits.len() == 0 {
        s
    } else {
        pieced(s.take(edits.last().start as int), edits.drop_last()) + edits.last().text + s.skip(
            edits.last().end as int,
        )
    }
}

proof fn lemma_last_goes_first(sorted: Seq<EditModel>, e: EditModel)
    requires
        forall|i: int| 0 <= i < sorted.len() ==> (#[trigger] sorted[i]).start < e.start,
    ensures
        with_edit(sorted, e) == seq![e] + sorted,
    decreases sorted.len(),
{
    if sorted.len() > 0 {
        lemma_last_goes_first(sorted.drop_last(), e);
        assert(with_edit(sorted, e) =~= seq![e] + sorted);
    } else {
        assert(with_edit(sorted, e) =~= seq![e] + sorted);
    }
}

proof fn lemma_reversed(edits: Seq<EditModel>, len: nat)
    requires
        apart(edits, len),
    ensures
        from_the_end(edits) == edits.reverse(),
    decreases edits.len(),
{
    if edits.len() > 0 {
        let init = edits.drop_last();
        assert(apart(init, len)) by {
            assert forall|i: int| 0 <= i < init.len() implies (#[trigger] init[i]).start
                <= init[i].end <= len by {
                assert(init[i] == edits[i]);
            }
            assert forall|i: int, j: int| 0 <= i < j < init.len() implies #[trigger] init[i].end
                <= #[trigger] init[j].start && init[i].start < init[j].start by {
                assert(init[i] == edits[i] && init[j] == edits[j]);
            }
        }
        lemma_reversed(init, len);
        assert forall|i: int| 0 <= i < init.reverse().len() implies (#[trigger] init.reverse()[i]).start
            < edits.last().start by {
            let k = init.len() - 1 - i;
            assert(init.reverse()[i] == edits[k]);
            assert(edits[k].start < edits[edits.len() - 1].start);
        }
        lemma_last_goes_first(init.reverse(), edits.last());
        assert(edits.reverse() =~= seq![edits.last()] + init.reverse());
    } else {
        assert(from_the_end(edits) =~= edits.reverse());
    }
}

proof fn lemma_applied_first(s: Seq<char>, e: EditModel, rest: Seq<EditModel>)
    ensures
        applied(s, seq![e] + rest) == applied(replaced(s, e), rest),
    decreases rest.len(),
{
    let all = seq![e] + rest;
    if rest.len() == 0 {
        assert(all.drop_last() =~= seq![]);
        assert(all.last() == e);
        assert(applied(s, all.drop_last()) == s);
    } else {
        lemma_applied_first(s, e, rest.drop_last());
        assert(all.drop_last() =~= seq![e] + rest.drop_last());
    }
}

proof fn lemma_pieced(s: Seq<char>, after: Seq<char>, edits: Seq<EditModel>)
    requires
        apart(edits, s.len()),
    ensures
        applied(s + after, edits.reverse()) == pieced(s, edits) + after,
    decreases edits.len(),
{
    if edits.len() == 0 {
        assert(edits.reverse() =~= seq![]);
    } else {
        let init = edits.drop_last();
        let e = edits.last();
        let head = s.take(e.start as int);
        let tail = e.text + s.skip(e.end as int) + after;
        assert(edits.reverse() =~= seq![e] + init.reverse());
        lemma_applied_first(s + after, e, init.reverse());
        assert(e == edits[edits.len() - 1]);
        assert(replaced(s + after, e) =~= head + tail);
        assert(apart(init, head.len())) by {
            assert forall|i: int| 0 <= i < init.len() implies (#[trigger] init[i]).start
                <= init[i].end <= head.len() by {
                assert(init[i] == edits[i]);
                assert(edits[i].end <= edits[edits.len() - 1].start);
            }
            assert forall|i: int, j: int| 0 <= i < j < init.len() implies #[trigger] init[i].end
                <= #[trigger] init[j].start && init[i].start < init[j].start by {
                assert(init[i] == edits[i] && init[j] == edits[j]);
            }
        }
        lemma_pieced(head, tail, init);
        assert(pieced(s, edits) + after =~= pieced(head, init) + tail);
    }
}

proof fn lemma_with_edit(sorted: Seq<EditModel>, e: EditModel)
    requires
        forall|i: int, j: int|
            0 <= i < j < sorted.len() ==> (#[trigger] sorted[i]).start >= (
            #[trigger] sorted[j]).start,
    ensures
        with_edit(sorted, e).to_multiset() == sorted.to_multiset().insert(e),
        forall|i: int|
            0 <= i < with_edit(sorted, e).len() ==> sorted.contains(
                #[trigger] with_edit(sorted, e)[i],
            ) || with_edit(sorted, e)[i] == e,
        forall|i: int, j: int|
            0 <= i < j < with_edit(sorted, e).len() ==> (#[trigger] with_edit(sorted, e)[i]).start
                >= (#[trigger] with_edit(sorted, e)[j]).start,
    decreases sorted.len(),
{
    broadcast use vstd::seq_lib::group_to_multiset_ensures;

    let out = with_edit(sorted, e);
    if sorted.len() > 0 && sorted.last().start < e.start {
        let init = sorted.drop_last();
        let last = sorted.last();
        assert(sorted =~= init.push(last));
        assert(forall|i: int| 0 <= i < init.len() ==> init[i] == sorted[i]);
        lemma_with_edit(init, e);
        let inner = with_edit(init, e);
        assert(out == inner.push(last));
        assert(out.to_multiset() =~= sorted.to_multiset().insert(e));
        assert forall|i: int| 0 <= i < out.len() implies sorted.contains(#[trigger] out[i])
            || out[i] == e by {
            if i < inner.len() {
                assert(out[i] == inner[i]);
                if init.contains(inner[i]) {
                    let k = choose|k: int| 0 <= k < init.len() && init[k] == inner[i];
                    assert(sorted[k] == out[i]);
                }
            } else {
                assert(sorted[sorted.len() - 1] == out[i]);
            }
        }
        assert forall|i: int, j: int| 0 <= i < j < out.len() implies (#[trigger] out[i]).start >= (
        #[trigger] out[j]).start by {
            assert(out[i] == inner[i]);
            if j < inner.len() {
                assert(out[j] == inner[j]);
            } else if inner[i] != e {
                let k = choose|k: int| 0 <= k < init.len() && init[k] == inner[i];
                assert(sorted[k].start >= sorted[sorted.len() - 1].start);
            }
        }
    } else {
        assert(out == sorted.push(e));
        assert forall|i: int| 0 <= i < out.len() implies sorted.contains(#[trigger] out[i])
            || out[i] == e by {
            if i < sorted.len() {
                assert(sorted[i] == out[i]);
            }
        }
        assert forall|i: int, j: int| 0 <= i < j < out.len() implies (#[trigger] out[i]).start >= (
        #[trigger] out[j]).start by {
            assert(out[i] == sorted[i]);
            if j < sorted.len() {
                assert(out[j] == sorted[j]);
            } else if i < sorted.len() - 1 {
                assert(sorted[i].start >= sorted[sorted.len() - 1].start);
            }
        }
    }
}

/// The order in which edits are made has each edit once, and runs from the last
/// start to the first.
pub proof fn law_edits_are_made_from_the_end(edits: Seq<EditModel>)
    ensures
        from_the_end(edits).to_multiset() == edits.to_multiset(),
        forall|i: int, j: int|
            0 <= i < j < from_the_end(edits).len() ==> (#[trigger] from_the_end(edits)[i]).start
                >= (#[trigger] from_the_end(edits)[j]).start,
    decreases edits.len(),
{
    broadcast use vstd::seq_lib::group_to_multiset_ensures;

    if edits.len() > 0 {
        law_edits_are_made_from_the_end(edits.drop_last());
        lemma_with_edit(from_the_end(edits.drop_last()), edits.last());
        assert(edits =~= edits.drop_last().push(edits.last()));
    } else {
        assert(from_the_end(edits) =~= edits);
    }
}

/// Edits that lie apart are each made where they say, and the text between them
/// stays as it is.
pub proof fn law_text_between_edits_is_kept(s: Seq<char>, edits: Seq<EditModel>)
    requires
        apart(edits, s.len()),
    ensures
        edited(s, edits) == pieced(s, edits),
{
    lemma_reversed(edits, s.len());
    lemma_pieced(s, seq![], edits);
    assert(s + seq![] =~= s);
    assert(pieced(s, edits) + seq![] =~= pieced(s, edits));
}

/// A site is reported as wrapped or frozen exactly if there is an edit for it.
pub proof fn law_reports_match_edits(
    site: SiteModel,
    answer: Option<Seq<char>>,
    prefix: Seq<char>,
    len: nat,
)
    ensures
        (outcome_for(site, answer, prefix, len) == Outcome::Wrapped || outcome_for(
            site,
            answer,
            prefix,
            len,
        ) == Outcome::Frozen) <==> edit_for(site, answer, prefix, len) is Some,
        edit_for(site, answer, prefix, len) matches Some(e) ==> e.start <= e.end <= len,
{
}

/// Names that only the run knows, and interpreters that read their whole file
/// first, are left alone.
pub proof fn law_dynamic_and_immune_sites_are_left(
    s: Seq<char>,
    sites: Seq<SiteModel>,
    answers: Seq<Option<Seq<char>>>,
    prefix: Seq<char>,
)
    requires
        sites.len() == answers.len(),
        forall|i: int|
            0 <= i < sites.len() ==> !(#[trigger] sites[i]).resolvable || sites[i].category
                == Category::OtherChild,
    ensures
        rewritten(s, sites, answers, prefix) == s,
{
    lemma_no_edits(sites, answers, prefix, s.len());
}

proof fn lemma_no_edits(
    sites: Seq<SiteModel>,
    answers: Seq<Option<Seq<char>>>,
    prefix: Seq<char>,
    len: nat,
)
    requires
        sites.len() <= answers.len(),
        forall|i: int|
            0 <= i < sites.len() ==> !(#[trigger] sites[i]).resolvable || sites[i].category
                == Category::OtherChild,
    ensures
        edits_for(sites, answers, prefix, len) == Seq::<EditModel>::empty(),
    decreases sites.len(),
{
    if sites.len() > 0 {
        assert(sites.last() == sites[sites.len() - 1]);
        assert forall|i: int| 0 <= i < sites.drop_last().len() implies !(
        #[trigger] sites.drop_last()[i]).resolvable || sites.drop_last()[i].category
            == Category::OtherChild by {
            assert(sites.drop_last()[i] == sites[i]);
        }
        lemma_no_edits(sites.drop_last(), answers, prefix, len);
    }
}

/// How many line feeds a text holds.
pub open spec fn line_feeds(s: Seq<char>) -> nat
    decreases s.len(),
{
    if s.len() == 0 {
        0
    } else {
        line_feeds(s.drop_last()) + if s.last() == '\n' {
            1nat
        } else {
            0nat
        }
    }
}

proof fn lemma_line_feeds_concat(a: Seq<char>, b: Seq<char>)
    ensures
        line_feeds(a + b) == line_feeds(a) + line_feeds(b),
    decreases b.len(),
{
    if b.len() == 0 {
        assert(a + b =~= a);
    } else {
        assert((a + b).drop_last() =~= a + b.drop_last());
        lemma_line_feeds_concat(a, b.drop_last());
    }
}

proof fn lemma_one_line(s: Seq<char>)
    requires
        !s.contains('\n'),
    ensures
        line_feeds(s) == 0,
    decreases s.len(),
{
    if s.len() > 0 {
        assert(s[s.len() - 1] == s.last());
        assert forall|k: int| 0 <= k < s.drop_last().len() implies #[trigger] s.drop_last()[k]
            != '\n' by {
            assert(s.drop_last()[k] == s[k]);
        }
        lemma_one_line(s.drop_last());
    }
}

/// Whether every edit puts one line in the place of one line, or of a part of it.
pub open spec fn within_lines(s: Seq<char>, edits: Seq<EditModel>) -> bool {
    forall|i: int|
        0 <= i < edits.len() ==> !(#[trigger] edits[i]).text.contains('\n') && !s.subrange(
            edits[i].start as int,
            edits[i].end as int,
        ).contains('\n')
}

/// Edits that stay within lines keep the number of lines. As this holds of every
/// beginning of a text with the edits in it, what follows an edit stays on its
/// line.
pub proof fn law_lines_keep_their_numbers(s: Seq<char>, edits: Seq<EditModel>)
    requires
        apart(edits, s.len()),
        within_lines(s, edits),
    ensures
        line_feeds(edited(s, edits)) == line_feeds(s),
{
    law_text_between_edits_is_kept(s, edits);
    lemma_pieced_lines(s, edits);
}

proof fn lemma_pieced_lines(s: Seq<char>, edits: Seq<EditModel>)
    requires
        apart(edits, s.len()),
        within_lines(s, edits),
    ensures
        line_feeds(pieced(s, edits)) == line_feeds(s),
    decreases edits.len(),
{
    if edits.len() > 0 {
        let init = edits.drop_last();
        let e = edits.last();
        assert(e == edits[edits.len() - 1]);
        let head = s.take(e.start as int);
        let mid = s.subrange(e.start as int, e.end as int);
        let tail = s.skip(e.end as int);
        assert forall|i: int| 0 <= i < init.len() implies (#[trigger] init[i]).start <= init[i].end
            <= head.len() && !init[i].text.contains('\n') && !head.subrange(
            init[i].start as int,
            init[i].end as int,
        ).contains('\n') by {
            assert(init[i] == edits[i]);
            assert(edits[i].end <= edits[edits.len() - 1].start);
            assert(head.subrange(init[i].start as int, init[i].end as int) =~= s.subrange(
                edits[i].start as int,
                edits[i].end as int,
            ));
        }
        assert forall|i: int, j: int| 0 <= i < j < init.len() implies #[trigger] init[i].end
            <= #[trigger] init[j].start && init[i].start < init[j].start by {
            assert(init[i] == edits[i] && init[j] == edits[j]);
        }
        lemma_pieced_lines(head, init);
        assert(s =~= head + mid + tail);
        lemma_line_feeds_concat(head, mid);
        lemma_line_feeds_concat(head + mid, tail);
        lemma_one_line(mid);
        lemma_one_line(e.text);
        lemma_line_feeds_concat(pieced(head, init), e.text);
        lemma_line_feeds_concat(pieced(head, init) + e.text, tail);
    }
}

// ---------------------------------------------------------------------------
// What becomes of each site

/// A command that runs a shell script of a known name gets the prefix put before
/// it, wherever it stands in the text and whether the script is its argument or
/// the command itself. A `source` of a known name that has a copy gets the path of
/// the copy in the place of its argument. Nothing else is edited.
pub proof fn law_what_is_edited(
    site: SiteModel,
    answer: Option<Seq<char>>,
    prefix: Seq<char>,
    len: nat,
)
    ensures
        site.resolvable && site.category == Category::ShellChild && site.cmd_offset <= len
            ==> edit_for(site, answer, prefix, len) == Some(
            EditModel { start: site.cmd_offset, end: site.cmd_offset, text: prefix },
        ) && outcome_for(site, answer, prefix, len) == Outcome::Wrapped,
        site.resolvable && site.category == Category::Source && answer is Some && site.arg_span
            is Some && (site.arg_span->0).0 <= (site.arg_span->0).1 <= len ==> edit_for(
            site,
            answer,
            prefix,
            len,
        ) == Some(
            EditModel {
                start: (site.arg_span->0).0,
                end: (site.arg_span->0).1,
                text: answer->0,
            },
        ) && outcome_for(site, answer, prefix, len) == Outcome::Frozen,
        !site.resolvable ==> edit_for(site, answer, prefix, len) is None && outcome_for(
            site,
            answer,
            prefix,
            len,
        ) == Outcome::Dynamic,
        site.resolvable && site.category == Category::OtherChild ==> edit_for(
            site,
            answer,
            prefix,
            len,
        ) is None && outcome_for(site, answer, prefix, len) == Outcome::Immune,
        site.resolvable && site.category == Category::Source && (answer is None || site.arg_span
            is None) ==> edit_for(site, answer, prefix, len) is None && outcome_for(
            site,
            answer,
            prefix,
            len,
        ) == Outcome::Unresolved,
{
}

/// Each site has the outcome that it would have alone.
pub proof fn law_each_site_is_reported(
    sites: Seq<SiteModel>,
    answers: Seq<Option<Seq<char>>>,
    prefix: Seq<char>,
    len: nat,
    i: int,
)
    requires
        sites.len() == answers.len(),
        0 <= i < sites.len(),
    ensures
        outcomes_for(sites, answers, prefix, len).len() == sites.len(),
        outcomes_for(sites, answers, prefix, len)[i] == outcomes_for(
            seq![sites[i]],
            seq![answers[i]],
            prefix,
            len,
        )[0],
        sites[i].resolvable && sites[i].category == Category::ShellChild && sites[i].cmd_offset
            <= len ==> outcomes_for(sites, answers, prefix, len)[i] == Outcome::Wrapped,
{
}

/// Whether the sites that can be edited stand one after the other in a text of
/// `len` characters.
pub open spec fn laid_out(sites: Seq<SiteModel>, len: nat) -> bool {
    &&& forall|i: int|
        0 <= i < sites.len() && (#[trigger] sites[i]).resolvable ==> sites[i].cmd_offset <= len
            && (sites[i].arg_span matches Some(span) ==> sites[i].cmd_offset <= span.0 <= span.1
            <= len)
    &&& forall|i: int, j: int|
        0 <= i < j < sites.len() && (#[trigger] sites[i]).resolvable && (
        #[trigger] sites[j]).resolvable ==> sites[i].cmd_offset < sites[j].cmd_offset && (
        sites[i].arg_span matches Some(span) ==> span.0 < sites[j].cmd_offset && span.1
            <= sites[j].cmd_offset)
}

/// Whether the sites that can be edited end before `at`.
spec fn all_before(sites: Seq<SiteModel>, at: int) -> bool {
    forall|i: int|
        0 <= i < sites.len() && (#[trigger] sites[i]).resolvable ==> sites[i].cmd_offset < at && (
        sites[i].arg_span matches Some(span) ==> span.0 < at && span.1 <= at)
}

proof fn lemma_laid_out_init(sites: Seq<SiteModel>, len: nat)
    requires
        laid_out(sites, len),
        sites.len() > 0,
    ensures
        laid_out(sites.drop_last(), len),
        sites.last().resolvable ==> all_before(sites.drop_last(), sites.last().cmd_offset as int),
{
    let init = sites.drop_last();
    assert(forall|i: int| 0 <= i < init.len() ==> init[i] == sites[i]);
    assert(sites.last() == sites[sites.len() - 1]);
    assert forall|i: int| 0 <= i < init.len() && (#[trigger] init[i]).resolvable
        && sites.last().resolvable implies init[i].cmd_offset < sites.last().cmd_offset && (
    init[i].arg_span matches Some(span) ==> span.0 < sites.last().cmd_offset && span.1
        <= sites.last().cmd_offset) by {
        assert(sites[i].resolvable && sites[sites.len() - 1].resolvable);
    }
}

/// Edits lie in the text, apart, and end before what all sites end before.
proof fn lemma_edits_apart(
    sites: Seq<SiteModel>,
    answers: Seq<Option<Seq<char>>>,
    prefix: Seq<char>,
    len: nat,
    at: int,
)
    requires
        sites.len() <= answers.len(),
        laid_out(sites, len),
        all_before(sites, at),
    ensures
        apart(edits_for(sites, answers, prefix, len), len),
        forall|k: int|
            0 <= k < edits_for(sites, answers, prefix, len).len() ==> (#[trigger] edits_for(
                sites,
                answers,
                prefix,
                len,
            )[k]).start < at && edits_for(sites, answers, prefix, len)[k].end <= at,
    decreases sites.len(),
{
    if sites.len() > 0 {
        let init = sites.drop_last();
        let x = sites.last();
        assert(forall|i: int| 0 <= i < init.len() ==> init[i] == sites[i]);
        assert(x == sites[sites.len() - 1]);
        lemma_laid_out_init(sites, len);
        let before = edits_for(init, answers, prefix, len);
        let all = edits_for(sites, answers, prefix, len);
        lemma_edits_apart(init, answers, prefix, len, at);
        match edit_for(x, answers[sites.len() - 1], prefix, len) {
            Some(e) => {
                lemma_edits_apart(init, answers, prefix, len, x.cmd_offset as int);
                assert(all == before.push(e));
                assert(e.start >= x.cmd_offset);
                assert forall|i: int, j: int| 0 <= i < j < all.len() implies #[trigger] all[i].end
                    <= #[trigger] all[j].start && all[i].start < all[j].start by {
                    assert(all[i] == before[i]);
                    if j < before.len() {
                        assert(all[j] == before[j]);
                    }
                }
                assert forall|i: int| 0 <= i < all.len() implies (#[trigger] all[i]).start
                    <= all[i].end <= len && all[i].start < at && all[i].end <= at by {
                    if i < before.len() {
                        assert(all[i] == before[i]);
                    }
                }
            },
            None => {},
        }
    }
}

/// The edits for sites that end before `cut` are the same in the text up to it.
proof fn lemma_edits_cut(
    sites: Seq<SiteModel>,
    answers: Seq<Option<Seq<char>>>,
    more: Seq<Option<Seq<char>>>,
    prefix: Seq<char>,
    len: nat,
    cut: nat,
)
    requires
        sites.len() <= answers.len(),
        sites.len() <= more.len(),
        forall|i: int| 0 <= i < sites.len() ==> answers[i] == more[i],
        laid_out(sites, len),
        cut <= len,
        all_before(sites, cut as int) || cut == len,
    ensures
        edits_for(sites, answers, prefix, len) == edits_for(sites, more, prefix, cut),
    decreases sites.len(),
{
    if sites.len() > 0 {
        let init = sites.drop_last();
        assert(forall|i: int| 0 <= i < init.len() ==> init[i] == sites[i]);
        assert(sites.last() == sites[sites.len() - 1]);
        lemma_laid_out_init(sites, len);
        lemma_edits_cut(init, answers, more, prefix, len, cut);
    }
}

/// A script is rewritten site by site, and all that is not edited stays: the last
/// command that runs a shell script gets the prefix before it, the last `source`
/// with a copy reads the copy, any other site at the end changes nothing, and what
/// stands before is rewritten as the sites there say.
pub proof fn law_a_script_is_rewritten_site_by_site(
    s: Seq<char>,
    sites: Seq<SiteModel>,
    answers: Seq<Option<Seq<char>>>,
    prefix: Seq<char>,
)
    requires
        sites.len() == answers.len(),
        laid_out(sites, s.len()),
    ensures
        sites.len() == 0 ==> rewritten(s, sites, answers, prefix) == s,
        sites.len() > 0 ==> ({
            let site = sites.last();
            let at = site.cmd_offset as int;
            let init = sites.drop_last();
            let given = answers.drop_last();
            if site.resolvable && site.category == Category::ShellChild {
                rewritten(s, sites, answers, prefix) == rewritten(s.take(at), init, given, prefix)
                    + prefix + s.skip(at)
            } else if site.resolvable && site.category == Category::Source && answers.last() is Some
                && site.arg_span is Some {
                rewritten(s, sites, answers, prefix) == rewritten(
                    s.take((site.arg_span->0).0 as int),
                    init,
                    given,
                    prefix,
                ) + answers.last()->0 + s.skip((site.arg_span->0).1 as int)
            } else {
                rewritten(s, sites, answers, prefix) == rewritten(s, init, given, prefix)
            }
        }),
{
    let len = s.len();
    if sites.len() > 0 {
        let site = sites.last();
        let init = sites.drop_last();
        let given = answers.drop_last();
        assert(site == sites[sites.len() - 1]);
        assert(answers.last() == answers[sites.len() - 1]);
        lemma_laid_out_init(sites, len);
        let before = edits_for(init, answers, prefix, len);
        let all = edits_for(sites, answers, prefix, len);
        match edit_for(site, answers.last(), prefix, len) {
            Some(e) => {
                let cut = e.start as nat;
                let head = s.take(cut as int);
                assert(head.len() == cut);
                assert(all_before(init, cut as int)) by {
                    assert(all_before(init, site.cmd_offset as int));
                    assert(site.cmd_offset <= cut);
                }
                lemma_edits_cut(init, answers, given, prefix, len, cut);
                assert(all_before(sites, len as int + 1)) by {
                    assert forall|i: int| 0 <= i < sites.len() && (
                    #[trigger] sites[i]).resolvable implies sites[i].cmd_offset < len + 1 && (
                    sites[i].arg_span matches Some(span) ==> span.0 < len + 1 && span.1 <= len
                        + 1) by {}
                }
                lemma_edits_apart(sites, answers, prefix, len, len as int + 1);
                law_text_between_edits_is_kept(s, all);
                assert(all == before.push(e));
                assert(all.drop_last() =~= before);
                assert(laid_out(init, cut)) by {
                    assert(forall|i: int| 0 <= i < init.len() ==> init[i] == sites[i]);
                }
                lemma_edits_apart(init, given, prefix, cut, cut as int);
                law_text_between_edits_is_kept(head, before);
                assert(pieced(s, all) == pieced(head, before) + e.text + s.skip(e.end as int));
            },
            None => {
                lemma_edits_cut(init, answers, given, prefix, len, len);
            },
        }
    }
}

/// What reports say of each outcome.
pub proof fn law_what_reports_say()
    ensures
        Outcome::Wrapped.says() == "wrapped"@,
        Outcome::Frozen.says() == "frozen"@,
        Outcome::Unresolved.says() == "left - unresolved/ambiguous"@,
        Outcome::Dynamic.says() == "left - dynamic"@,
        Outcome::Immune.says() == "left - immune"@,
        Outcome::Left.says() == "left"@,
{
}

} // verus!

//! Candidates for the completion of a command line.

use vstd::prelude::*;

use crate::model::{Graph, Status, Tree};
use crate::preorder as reading;
use crate::query;
use crate::render;
use crate::state as derived;
use crate::text::{self, Text};

verus! {

/// Something to complete to.
#[derive(Debug, PartialEq, Eq)]
pub struct Candidate {
    pub value: String,
    /// What to show beside it, if there is anything to show.
    pub help: Option<String>,
    /// Where it stands in the list: a slug's neighbours are those of the
    /// interview.
    pub order: usize,
}

pub struct CandidateView {
    pub value: Text,
    pub help: Option<Text>,
    pub order: nat,
}

impl View for Candidate {
    type V = CandidateView;

    open spec fn view(&self) -> CandidateView {
        CandidateView {
            value: self.value@,
            help: text::optional(self.help),
            order: self.order as nat,
        }
    }
}

pub open spec fn candidates(list: Seq<Candidate>) -> Seq<CandidateView> {
    list.map_values(|candidate: Candidate| candidate@)
}

pub open spec fn candidate_of(value: Text, help: Text, order: nat) -> CandidateView {
    CandidateView {
        value,
        help: if help.len() == 0 {
            None
        } else {
            Some(help)
        },
        order,
    }
}

fn candidate(value: String, help: String, order: usize) -> (r: Candidate)
    ensures
        r@ == candidate_of(value@, help@, order as nat),
{
    let help = if help.as_str().unicode_len() == 0 {
        None
    } else {
        Some(help)
    };
    Candidate { value, help, order }
}

// ---------------------------------------------------------------------------
// Trees
// ---------------------------------------------------------------------------

/// The help of a tree: the first line of its intent, if it could be read.
pub open spec fn tree_help(intent: Option<String>) -> Text {
    match intent {
        Some(intent) => query::first_line_of(intent@),
        None => Seq::empty(),
    }
}

/// The trees of a store as candidates. `found` lists their slugs in order and,
/// where the tree could be read, its intent.
pub fn trees(found: &Vec<(String, Option<String>)>) -> (r: Vec<Candidate>)
    ensures
        candidates(r@) == Seq::new(
            found@.len(),
            |i: int| candidate_of(found@[i].0@, tree_help(found@[i].1), i as nat),
        ),
{
    let mut out: Vec<Candidate> = Vec::new();
    for i in 0..found.len()
        invariant
            out@.len() == i,
            forall|j: int|
                0 <= j < i ==> (#[trigger] out@[j])@ == candidate_of(
                    found@[j].0@,
                    tree_help(found@[j].1),
                    j as nat,
                ),
    {
        let help = match &found[i].1 {
            Some(intent) => text::owned(query::first_line(intent.as_str())),
            None => String::new(),
        };
        out.push(candidate(found[i].0.clone(), help, i));
    }
    assert(candidates(out@) =~= Seq::new(
        found@.len(),
        |i: int| candidate_of(found@[i].0@, tree_help(found@[i].1), i as nat),
    ));
    out
}

// ---------------------------------------------------------------------------
// Heads
// ---------------------------------------------------------------------------

/// The help of a head: the mark of its state and the first line of its question.
pub open spec fn head_help(g: Graph, slug: Text) -> Text {
    seq![render::glyph_of(derived::state_of(g, g[slug])), ' '] + query::first_line_of(
        g[slug].question,
    )
}

pub open spec fn wanted(g: Graph, answered_only: bool) -> spec_fn(Text) -> bool {
    |slug: Text| !answered_only || g[slug].status == Status::Answered
}

pub open spec fn listed(g: Graph, slugs: Seq<Text>) -> Seq<CandidateView> {
    Seq::new(
        slugs.len(),
        |i: int| candidate_of(slugs[i], head_help(g, slugs[i]), i as nat),
    )
}

/// The heads that can be completed to, in the order in which the tree is read.
pub open spec fn head_candidates_of(g: Graph, answered_only: bool) -> Seq<CandidateView> {
    listed(g, query::read_order(g).filter(wanted(g, answered_only)))
}

fn head_candidates(tree: &Tree, answered_only: bool) -> (r: Vec<Candidate>)
    ensures
        candidates(r@) == head_candidates_of(tree@.heads, answered_only),
{
    let ghost g = tree@.heads;
    let visits = query::preorder(tree);
    let ghost all = query::read_order(g);
    let ghost p = wanted(g, answered_only);
    let mut out: Vec<Candidate> = Vec::new();
    proof {
        reveal(Seq::filter);
        assert(all.len() == visits@.len());
        assert(all.take(0).filter(p) =~= Seq::<Text>::empty());
        assert(candidates(out@) =~= listed(g, all.take(0).filter(p)));
    }
    for i in 0..visits.len()
        invariant
            g == tree@.heads,
            all == query::read_order(g),
            p == wanted(g, answered_only),
            all.len() == visits@.len(),
            reading::stops(visits@) == reading::outline(g),
            reading::reads(g, visits@),
            candidates(out@) == listed(g, all.take(i as int).filter(p)),
    {
        let visit = &visits[i];
        let ghost front = all.take(i as int).filter(p);
        proof {
            reveal(Seq::filter);
            assert(reading::stops(visits@)[i as int].0 == visit.slug@);
            assert(all[i as int] == visit.slug@);
            assert(all.take(i + 1).drop_last() =~= all.take(i as int));
            assert(all.take(i + 1).last() == all[i as int]);
            assert(candidates(out@).len() == out@.len());
        }
        let keep = match visit.head.status {
            Status::Answered => true,
            Status::Open => !answered_only,
        };
        if keep {
            let mut help = String::new();
            help.push(render::glyph(query::state(tree, visit.head)));
            help.push(' ');
            help.append(query::first_line(visit.head.question.as_str()));
            assert(help@ =~= head_help(g, visit.slug@));
            let order: usize = out.len();
            let next = candidate(text::owned(visit.slug), help, order);
            proof {
                assert(candidates(out@.push(next)) =~= candidates(out@).push(next@));
                assert(listed(g, front.push(all[i as int])) =~= listed(g, front).push(next@));
            }
            out.push(next);
        }
    }
    assert(all.take(visits@.len() as int) =~= all);
    out
}

/// Every head of a tree.
pub fn heads(tree: &Tree) -> (r: Vec<Candidate>)
    ensures
        candidates(r@) == head_candidates_of(tree@.heads, false),
{
    head_candidates(tree, false)
}

/// The heads that are answered: those that can be reopened, and those whose
/// answer can kill a question.
pub fn answered_heads(tree: &Tree) -> (r: Vec<Candidate>)
    ensures
        candidates(r@) == head_candidates_of(tree@.heads, true),
{
    head_candidates(tree, true)
}

} // verus!

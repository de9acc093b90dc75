//! Derived state: whether a head is blocked, ready, cauterised or done. Nothing
//! here is stored.

use vstd::prelude::*;

use crate::model::{Graph, Head, HeadView, Status, Tree};
use crate::order;
use crate::text::{self, Text};

verus! {

/// The four things that a head can look like. Only [`Status`] is stored.
#[derive(Debug, Clone, Copy, PartialEq, Eq, Structural)]
pub enum State {
    Answered,
    Cauterised,
    Ready,
    Blocked,
}

/// An entry of `blocked_by` still holds its head back. One that names no head
/// does so too: reading it as satisfied would advance the frontier over a
/// damaged file.
pub open spec fn unmet(g: Graph, blocker: Text) -> bool {
    !(g.dom().contains(blocker) && g[blocker].status == Status::Answered)
}

/// The entries that hold `head` back, in the order in which they are stored.
pub open spec fn unmet_blockers(g: Graph, head: HeadView) -> Seq<Text> {
    head.blocked_by.filter(|blocker: Text| unmet(g, blocker))
}

pub open spec fn blocked(g: Graph, head: HeadView) -> bool {
    exists|i: int| 0 <= i < head.blocked_by.len() && unmet(g, #[trigger] head.blocked_by[i])
}

pub open spec fn can_be_asked(g: Graph, head: HeadView) -> bool {
    head.status == Status::Open && !blocked(g, head)
}

/// The field tells, not the text: a real answer may say the same word.
pub open spec fn cauterised(head: HeadView) -> bool {
    head.answer matches Some(answer) && answer.cauterised_by is Some
}

pub open spec fn state_of(g: Graph, head: HeadView) -> State {
    match head.status {
        Status::Answered => if cauterised(head) {
            State::Cauterised
        } else {
            State::Answered
        },
        Status::Open => if blocked(g, head) {
            State::Blocked
        } else {
            State::Ready
        },
    }
}

/// No head is open.
pub open spec fn finished(g: Graph) -> bool {
    forall|slug: Text| #[trigger] g.dom().contains(slug) ==> g[slug].status == Status::Answered
}

/// A head is blocked exactly when some entry holds it back.
pub proof fn blocked_iff_some_blocker_is_unmet(g: Graph, head: HeadView)
    ensures
        blocked(g, head) == (unmet_blockers(g, head).len() > 0),
{
    let p = |blocker: Text| unmet(g, blocker);
    let all = head.blocked_by;
    if blocked(g, head) {
        let i = choose|i: int| 0 <= i < all.len() && unmet(g, #[trigger] all[i]);
        all.lemma_filter_contains(p, i);
    }
    if all.filter(p).len() > 0 {
        let x = all.filter(p)[0];
        assert(all.filter(p).contains(x));
        order::lemma_kept_is_listed(all, p, x);
        let i = choose|i: int| 0 <= i < all.len() && all[i] == x;
        assert(unmet(g, all[i]));
    }
}

fn is_unmet(tree: &Tree, blocker: &str) -> (r: bool)
    ensures
        r == unmet(tree@.heads, blocker@),
{
    match tree.heads.get(blocker) {
        Some(head) => match head.status {
            Status::Answered => false,
            Status::Open => true,
        },
        None => true,
    }
}

/// The `blocked_by` entries that keep `head` off the frontier, in stored order.
pub fn open_blockers(tree: &Tree, head: &Head) -> (r: Vec<String>)
    ensures
        text::texts(r@) == unmet_blockers(tree@.heads, head@),
{
    let ghost g = tree@.heads;
    let ghost all = head@.blocked_by;
    let ghost p = |blocker: Text| unmet(g, blocker);
    let mut out: Vec<String> = Vec::new();
    proof {
        assert(text::texts(out@) =~= Seq::<Text>::empty());
        assert(all.take(0) =~= Seq::<Text>::empty());
        reveal(Seq::filter);
    }
    for i in 0..head.blocked_by.len()
        invariant
            g == tree@.heads,
            all == text::texts(head.blocked_by@),
            p == (|blocker: Text| unmet(g, blocker)),
            text::texts(out@) == all.take(i as int).filter(p),
    {
        proof {
            reveal(Seq::filter);
            assert(all[i as int] == head.blocked_by@[i as int]@);
            assert(all.take(i + 1).drop_last() =~= all.take(i as int));
            assert(all.take(i + 1).last() == all[i as int]);
        }
        if is_unmet(tree, head.blocked_by[i].as_str()) {
            let ghost so_far = text::texts(out@);
            out.push(head.blocked_by[i].clone());
            assert(text::texts(out@) =~= so_far.push(all[i as int]));
        }
    }
    assert(all.take(head.blocked_by@.len() as int) =~= all);
    out
}

pub fn is_blocked(tree: &Tree, head: &Head) -> (r: bool)
    ensures
        r == blocked(tree@.heads, head@),
{
    for i in 0..head.blocked_by.len()
        invariant
            forall|j: int|
                0 <= j < i ==> !unmet(tree@.heads, #[trigger] head@.blocked_by[j]),
    {
        assert(head@.blocked_by[i as int] == head.blocked_by@[i as int]@);
        if is_unmet(tree, head.blocked_by[i].as_str()) {
            return true;
        }
    }
    false
}

pub fn is_ready(tree: &Tree, head: &Head) -> (r: bool)
    ensures
        r == can_be_asked(tree@.heads, head@),
{
    match head.status {
        Status::Open => !is_blocked(tree, head),
        Status::Answered => false,
    }
}

pub fn is_cauterised(head: &Head) -> (r: bool)
    ensures
        r == cauterised(head@),
{
    match &head.answer {
        Some(answer) => answer.cauterised_by.is_some(),
        None => false,
    }
}

pub fn is_done(tree: &Tree) -> (r: bool)
    ensures
        r == finished(tree@.heads),
{
    proof {
        use_type_invariant(&tree.heads);
        crate::heads::lemma_zipped(tree.heads.keys(), tree.heads.values());
    }
    let ghost keys = tree.heads.keys();
    let ghost g = tree@.heads;
    let count = tree.heads.len();
    for i in 0..count
        invariant
            g == tree@.heads,
            count == keys.len(),
            keys == tree.heads.keys(),
            g.dom() == keys.to_set(),
            forall|j: int| 0 <= j < i ==> g[#[trigger] keys[j]].status == Status::Answered,
    {
        match tree.heads.value_at(i).status {
            Status::Open => {
                assert(g.dom().contains(keys[i as int]));
                return false;
            },
            Status::Answered => {},
        }
    }
    assert forall|slug: Text| #[trigger] g.dom().contains(slug) implies g[slug].status
        == Status::Answered by {
        let j = choose|j: int| 0 <= j < keys.len() && keys[j] == slug;
        assert(g[keys[j]].status == Status::Answered);
    }
    true
}

pub fn state(tree: &Tree, head: &Head) -> (r: State)
    ensures
        r == state_of(tree@.heads, head@),
{
    match head.status {
        Status::Answered => if is_cauterised(head) {
            State::Cauterised
        } else {
            State::Answered
        },
        Status::Open => if is_blocked(tree, head) {
            State::Blocked
        } else {
            State::Ready
        },
    }
}

} // verus!

//! What the operations keep.
//!
//! A tree is sound when nothing in it dangles and nothing in it stands on
//! itself. Every operation that is not forced keeps a tree sound, and a sound
//! tree can always be worked on: while a head is open there is one to ask next,
//! and to revise an answer never takes back what it rests on.

use vstd::prelude::*;

use ulid::Ulid;

use crate::cascade;
use crate::graph;
use crate::model::{AnswerView, Graph, HeadView, Status, Timestamp};
use crate::order;
use crate::slug as slugs;
use crate::state;
use crate::text::Text;
use crate::walk;

verus! {

// ---------------------------------------------------------------------------
// Soundness
// ---------------------------------------------------------------------------

/// One head in good order: it is filed under its own slug, its ends exist, its
/// blockers are sorted and listed once, and it has an answer if and only if it is
/// answered.
pub open spec fn tidy_head(g: Graph, slug: Text) -> bool {
    let head = g[slug];
    &&& head.slug == slug
    &&& slugs::well_formed(slug)
    &&& head.parent matches Some(parent) ==> g.dom().contains(parent)
    &&& forall|i: int|
        0 <= i < head.blocked_by.len() ==> g.dom().contains(#[trigger] head.blocked_by[i])
    &&& order::ascends(head.blocked_by, order::by_text())
    &&& head.answer is Some <==> head.status == Status::Answered
}

/// No two heads under one parent have the same number.
pub open spec fn seated(g: Graph) -> bool {
    forall|a: Text, b: Text|
        #![trigger g.dom().contains(a), g.dom().contains(b)]
        g.dom().contains(a) && g.dom().contains(b) && a != b && g[a].parent == g[b].parent
            ==> g[a].seq != g[b].seq
}

/// Every head is in good order, and siblings have a place each.
pub open spec fn tidy(g: Graph) -> bool {
    &&& g.dom().finite()
    &&& forall|slug: Text| #[trigger] g.dom().contains(slug) ==> tidy_head(g, slug)
    &&& seated(g)
}

/// No walk of blockers, or of blockers and parents, comes back to where it began.
pub open spec fn acyclic_by(g: Graph, via_parent: bool) -> bool {
    forall|path: Seq<Text>|
        path.len() >= 2 && #[trigger] walk::follows(g, via_parent, path) ==> path[0] != path.last()
}

/// No walk of parents and blockers comes back to where it began.
pub open spec fn acyclic(g: Graph) -> bool {
    acyclic_by(g, true)
}

/// Every blocker that a head names exists.
pub open spec fn blockers_exist(g: Graph) -> bool {
    forall|slug: Text, i: int|
        #![trigger g[slug].blocked_by[i]]
        g.dom().contains(slug) && 0 <= i < g[slug].blocked_by.len() ==> g.dom().contains(
            g[slug].blocked_by[i],
        )
}

pub open spec fn sound(g: Graph) -> bool {
    tidy(g) && acyclic(g)
}

// ---------------------------------------------------------------------------
// Walks
// ---------------------------------------------------------------------------

/// Two walks, the second of which begins where the first ends, make one.
proof fn lemma_join(g: Graph, from: Text, mid: Text, to: Text)
    requires
        walk::stands_on(g, true, from, mid),
        walk::stands_on(g, true, mid, to),
    ensures
        exists|path: Seq<Text>|
            walk::connects(g, true, from, to, path) && (from != mid ==> path.len() >= 2),
{
    let p = choose|path: Seq<Text>| walk::connects(g, true, from, mid, path);
    let q = choose|path: Seq<Text>| walk::connects(g, true, mid, to, path);
    let path = p + q.skip(1);
    assert forall|i: int| 0 <= i < path.len() - 1 implies walk::premises(
        g,
        true,
        #[trigger] path[i],
    ).contains(path[i + 1]) by {
        if i < p.len() - 1 {
            assert(path[i] == p[i]);
            assert(path[i + 1] == p[i + 1]);
        } else {
            let k = i - (p.len() - 1);
            assert(path[i] == q[k]);
            assert(path[i + 1] == q[k + 1]);
        }
    }
    if q.len() > 1 {
        assert(path.last() == q.last());
    } else {
        assert(path.last() == p.last());
    }
    assert(walk::connects(g, true, from, to, path));
}

/// The part of a walk up to where it first meets `to`.
proof fn lemma_first_meeting(g: Graph, h: Graph, from: Text, to: Text, path: Seq<Text>)
    requires
        walk::connects(h, true, from, to, path),
        forall|at: Text|
            at != to ==> #[trigger] walk::premises(h, true, at) == walk::premises(g, true, at),
    ensures
        walk::stands_on(g, true, from, to),
    decreases path.len(),
{
    if exists|i: int| 0 <= i < path.len() - 1 && #[trigger] path[i] == to {
        let i = choose|i: int| 0 <= i < path.len() - 1 && #[trigger] path[i] == to;
        let shorter = path.take(i + 1);
        assert forall|k: int| 0 <= k < shorter.len() - 1 implies walk::premises(
            h,
            true,
            #[trigger] shorter[k],
        ).contains(shorter[k + 1]) by {
            assert(walk::premises(h, true, path[k]).contains(path[k + 1]));
        }
        assert(shorter.last() == to);
        lemma_first_meeting(g, h, from, to, shorter);
    } else {
        assert forall|k: int| 0 <= k < path.len() - 1 implies walk::premises(
            g,
            true,
            #[trigger] path[k],
        ).contains(path[k + 1]) by {
            assert(walk::premises(h, true, path[k]).contains(path[k + 1]));
            assert(path[k] != to);
        }
        assert(walk::connects(g, true, from, to, path));
    }
}

/// A closed walk, begun one step after the `i`th place and followed around to it.
proof fn lemma_rotate(g: Graph, path: Seq<Text>, i: int)
    requires
        path.len() >= 2,
        walk::follows(g, true, path),
        path[0] == path.last(),
        0 <= i < path.len() - 1,
    ensures
        walk::stands_on(g, true, path[i + 1], path[i]),
{
    let n = path.len() as int;
    let around = path.subrange(i + 1, n) + path.subrange(1, i + 1);
    assert forall|k: int| 0 <= k < around.len() - 1 implies walk::premises(
        g,
        true,
        #[trigger] around[k],
    ).contains(around[k + 1]) by {
        if k < n - i - 2 {
            assert(around[k] == path[i + 1 + k]);
            assert(around[k + 1] == path[i + 1 + k + 1]);
        } else if k == n - i - 2 {
            assert(around[k] == path[n - 1]);
            assert(around[k] == path[0]);
            assert(around[k + 1] == path[0int + 1]);
        } else {
            let j = k - (n - i - 1) + 1;
            assert(around[k] == path[j]);
            assert(around[k + 1] == path[j + 1]);
        }
    }
    assert(around[0] == path[i + 1]);
    if i == 0 {
        assert(around.last() == path[n - 1]);
    } else {
        assert(around.last() == path[i]);
    }
    assert(walk::connects(g, true, path[i + 1], path[i], around));
}

/// To change the edges of one head closes no cycle, if no new premise of it
/// stands on it.
proof fn lemma_stays_acyclic(g: Graph, h: Graph, slug: Text)
    requires
        acyclic(g),
        forall|at: Text|
            at != slug ==> #[trigger] walk::premises(h, true, at) == walk::premises(g, true, at),
        forall|x: Text| #[trigger]
            walk::premises(h, true, slug).contains(x) ==> walk::premises(g, true, slug).contains(x)
                || !walk::stands_on(g, true, x, slug),
    ensures
        acyclic(h),
{
    assert forall|path: Seq<Text>|
        path.len() >= 2 && #[trigger] walk::follows(h, true, path) implies path[0]
        != path.last() by {
        if path[0] == path.last() {
            if exists|i: int| 0 <= i < path.len() - 1 && #[trigger] path[i] == slug {
                let i = choose|i: int| 0 <= i < path.len() - 1 && #[trigger] path[i] == slug;
                let x = path[i + 1];
                assert(walk::premises(h, true, path[i]).contains(path[i + 1]));
                lemma_rotate(h, path, i);
                let around = choose|p: Seq<Text>| walk::connects(h, true, x, slug, p);
                lemma_first_meeting(g, h, x, slug, around);
                let back = choose|p: Seq<Text>| walk::connects(g, true, x, slug, p);
                let closed = seq![slug] + back;
                assert forall|k: int| 0 <= k < closed.len() - 1 implies walk::premises(
                    g,
                    true,
                    #[trigger] closed[k],
                ).contains(closed[k + 1]) by {
                    if k > 0 {
                        assert(closed[k] == back[k - 1]);
                        assert(closed[k + 1] == back[k - 1 + 1]);
                    }
                }
                assert(walk::follows(g, true, closed));
                assert(closed.last() == back.last());
            } else {
                assert forall|k: int| 0 <= k < path.len() - 1 implies walk::premises(
                    g,
                    true,
                    #[trigger] path[k],
                ).contains(path[k + 1]) by {
                    assert(walk::premises(h, true, path[k]).contains(path[k + 1]));
                    assert(path[k] != slug);
                }
                assert(walk::follows(g, true, path));
            }
        }
    }
}

// ---------------------------------------------------------------------------
// What every operation keeps
// ---------------------------------------------------------------------------

/// A tree without heads is sound.
pub proof fn nothing_is_sound()
    ensures
        sound(Map::<Text, HeadView>::empty()),
{
    let g = Map::<Text, HeadView>::empty();
    assert forall|path: Seq<Text>|
        path.len() >= 2 && #[trigger] walk::follows(g, true, path) implies path[0]
        != path.last() by {
        assert(walk::premises(g, true, path[0]).contains(path[0int + 1]));
    }
}

proof fn lemma_number_is_new(g: Graph, parent: Option<Text>)
    requires
        g.dom().finite(),
        graph::seats_left(g, parent),
    ensures
        forall|slug: Text| #[trigger]
            graph::child_of(g, parent, slug) ==> g[slug].seq < graph::next_seq(g, parent),
        1 <= graph::next_seq(g, parent) <= u32::MAX,
{
    graph::next_seq_exists(g, parent);
}

/// A head that was sprouted leaves the tree sound, whatever it was given as
/// parent and blockers: nothing can point at it yet.
pub proof fn sprout_keeps_soundness(
    g: Graph,
    args: graph::SproutView,
    slug: Text,
    id: Ulid,
    at: Timestamp,
)
    requires
        tidy(g),
        graph::sprout_outcome(g, args) == Ok::<Text, crate::error::ErrorView>(slug),
        graph::seats_left(g, args.parent),
    ensures
        tidy(g.insert(slug, graph::sprouted(g, args, slug, id, at))),
        acyclic(g) ==> acyclic(g.insert(slug, graph::sprouted(g, args, slug, id, at))),
{
    let head = graph::sprouted(g, args, slug, id, at);
    let h = g.insert(slug, head);
    graph::granted_slug(g, args);
    graph::granted_ends_exist(g, args);
    order::by_text_is_strict();
    let edges = args.blocked_by.to_set();
    vstd::seq_lib::seq_to_set_is_finite(args.blocked_by);
    order::arrangement_exists(edges, order::by_text());
    lemma_number_is_new(g, args.parent);
    assert forall|x: Text| #[trigger] h.dom().contains(x) implies tidy_head(h, x) by {
        if x == slug {
            assert forall|i: int| 0 <= i < head.blocked_by.len() implies h.dom().contains(
                #[trigger] head.blocked_by[i],
            ) by {
                assert(head.blocked_by.contains(head.blocked_by[i]));
                assert(args.blocked_by.contains(head.blocked_by[i]));
            }
        } else {
            assert(tidy_head(g, x));
        }
    }
    assert forall|a: Text, b: Text|
        #![trigger h.dom().contains(a), h.dom().contains(b)]
        h.dom().contains(a) && h.dom().contains(b) && a != b && h[a].parent
            == h[b].parent implies h[a].seq != h[b].seq by {
        if a == slug {
            assert(graph::child_of(g, args.parent, b));
        } else if b == slug {
            assert(graph::child_of(g, args.parent, a));
        } else {
            assert(g.dom().contains(a) && g.dom().contains(b));
        }
    }
    if acyclic(g) {
        assert forall|x: Text| #[trigger] walk::premises(h, true, slug).contains(
            x,
        ) implies !walk::stands_on(g, true, x, slug) by {
            cascade::lemma_depends(h, slug, x);
            assert(h.dom().contains(x) && x != slug) by {
                if head.blocked_by.contains(x) {
                    assert(args.blocked_by.contains(x));
                }
            }
            lemma_nothing_leads_out(g, x, slug);
        }
        lemma_stays_acyclic(g, h, slug);
    }
}

/// In a tree in which nothing dangles no walk leaves it.
proof fn lemma_nothing_leads_out(g: Graph, x: Text, out: Text)
    requires
        tidy(g),
        g.dom().contains(x),
        !g.dom().contains(out),
    ensures
        !walk::stands_on(g, true, x, out),
{
    if walk::stands_on(g, true, x, out) {
        let path = choose|path: Seq<Text>| walk::connects(g, true, x, out, path);
        let k = path.len() - 2;
        assert(walk::premises(g, true, path[k]).contains(path[k + 1]));
        cascade::lemma_depends(g, path[k], out);
        assert(tidy_head(g, path[k]));
        let blockers = g[path[k]].blocked_by;
        if blockers.contains(out) {
            let i = choose|i: int| 0 <= i < blockers.len() && blockers[i] == out;
            assert(g.dom().contains(blockers[i]));
        }
    }
}

/// To write to heads without touching their edges, numbers and slugs keeps a
/// tree sound, so long as each has an answer if and only if it is answered.
proof fn lemma_same_shape(g: Graph, h: Graph)
    requires
        tidy(g),
        walk::same_edges(g, h),
        forall|slug: Text| #[trigger]
            g.dom().contains(slug) ==> {
                &&& h[slug].slug == g[slug].slug
                &&& h[slug].seq == g[slug].seq
                &&& h[slug].answer is Some <==> h[slug].status == Status::Answered
            },
    ensures
        tidy(h),
        acyclic(g) ==> acyclic(h),
{
    assert forall|slug: Text| #[trigger] h.dom().contains(slug) implies tidy_head(h, slug) by {
        assert(tidy_head(g, slug));
    }
    assert forall|a: Text, b: Text|
        #![trigger h.dom().contains(a), h.dom().contains(b)]
        h.dom().contains(a) && h.dom().contains(b) && a != b && h[a].parent
            == h[b].parent implies h[a].seq != h[b].seq by {
        assert(g.dom().contains(a) && g.dom().contains(b));
    }
    if acyclic(g) {
        assert forall|at: Text| #[trigger]
            walk::premises(h, true, at) == walk::premises(g, true, at) by {
            assert(g.dom().contains(at) == h.dom().contains(at));
        }
        assert forall|path: Seq<Text>|
            path.len() >= 2 && #[trigger] walk::follows(h, true, path) implies path[0]
            != path.last() by {
            assert forall|k: int| 0 <= k < path.len() - 1 implies walk::premises(
                g,
                true,
                #[trigger] path[k],
            ).contains(path[k + 1]) by {
                assert(walk::premises(h, true, path[k]).contains(path[k + 1]));
            }
            assert(walk::follows(g, true, path));
        }
    }
}

/// An answer leaves the tree sound, whether it was forced or not and whatever it
/// reopened.
pub proof fn answering_keeps_soundness(
    g: Graph,
    h: Graph,
    slug: Text,
    answer: AnswerView,
    keep_subtree: bool,
)
    requires
        tidy(g),
        g.dom().contains(slug),
        graph::answers(g, h, slug, answer, keep_subtree),
    ensures
        tidy(h),
        acyclic(g) ==> acyclic(h),
{
    lemma_reopening_keeps_shape(g, h, slug, graph::cascaded(g, slug, keep_subtree));
}

proof fn lemma_reopening_keeps_shape(g: Graph, h: Graph, slug: Text, set: Set<Text>)
    requires
        tidy(g),
        g.dom().contains(slug),
        cascade::reopens(g.insert(slug, h[slug]), h, set),
        !set.contains(slug),
        h[slug].slug == g[slug].slug,
        h[slug].seq == g[slug].seq,
        h[slug].parent == g[slug].parent,
        h[slug].blocked_by == g[slug].blocked_by,
        h[slug].answer is Some <==> h[slug].status == Status::Answered,
    ensures
        tidy(h),
        acyclic(g) ==> acyclic(h),
{
    let mid = g.insert(slug, h[slug]);
    assert(mid.dom() =~= g.dom());
    assert forall|x: Text| #[trigger] g.dom().contains(x) implies {
        &&& h[x].slug == g[x].slug
        &&& h[x].seq == g[x].seq
        &&& h[x].answer is Some <==> h[x].status == Status::Answered
        &&& g[x].parent == h[x].parent
        &&& g[x].blocked_by == h[x].blocked_by
    } by {
        assert(mid.dom().contains(x));
        assert(tidy_head(g, x));
    }
    lemma_same_shape(g, h);
}

/// To withdraw an answer leaves the tree sound.
pub proof fn reopening_keeps_soundness(g: Graph, h: Graph, slug: Text)
    requires
        tidy(g),
        g.dom().contains(slug),
        g[slug].reopened().now_is(h[slug]),
        cascade::reopens(g.insert(slug, h[slug]), h, cascade::stale(g, slug)),
    ensures
        tidy(h),
        acyclic(g) ==> acyclic(h),
{
    lemma_reopening_keeps_shape(g, h, slug, cascade::stale(g, slug));
}

/// To reword a question leaves the tree sound.
pub proof fn rewording_keeps_soundness(g: Graph, h: Graph, slug: Text, question: Text)
    requires
        tidy(g),
        g.dom().contains(slug),
        graph::rewrites(g, h, slug, g[slug].reworded(question)),
    ensures
        tidy(h),
        acyclic(g) ==> acyclic(h),
{
    assert(h.dom() =~= g.dom());
    assert(tidy_head(g, slug));
    assert forall|x: Text| #[trigger] g.dom().contains(x) implies h[x].answer is Some <==> h[x].status
        == Status::Answered by {
        assert(tidy_head(g, x));
    }
    lemma_same_shape(g, h);
}

/// A move that is not refused leaves the tree sound.
pub proof fn reparenting_keeps_soundness(g: Graph, h: Graph, slug: Text, parent: Option<Text>)
    requires
        tidy(g),
        graph::reparent_refusal(g, slug, parent) is None,
        g[slug].parent != parent ==> graph::seats_left(g, parent),
        graph::reseats(g, h, slug, parent),
    ensures
        tidy(h),
        acyclic(g) ==> acyclic(h),
{
    if g[slug].parent != parent {
        lemma_number_is_new(g, parent);
        assert(h.dom() =~= g.dom());
        assert forall|x: Text| #[trigger] h.dom().contains(x) implies tidy_head(h, x) by {
            assert(tidy_head(g, x));
        }
        assert forall|a: Text, b: Text|
            #![trigger h.dom().contains(a), h.dom().contains(b)]
            h.dom().contains(a) && h.dom().contains(b) && a != b && h[a].parent
                == h[b].parent implies h[a].seq != h[b].seq by {
            assert(g.dom().contains(a) && g.dom().contains(b));
            if a == slug {
                assert(graph::child_of(g, parent, b));
            } else if b == slug {
                assert(graph::child_of(g, parent, a));
            }
        }
        if acyclic(g) {
            assert forall|x: Text| #[trigger]
                walk::premises(h, true, slug).contains(x) implies walk::premises(
                g,
                true,
                slug,
            ).contains(x) || !walk::stands_on(g, true, x, slug) by {
                cascade::lemma_depends(h, slug, x);
                cascade::lemma_depends(g, slug, x);
            }
            lemma_stays_acyclic(g, h, slug);
        }
    }
}

proof fn lemma_regated(g: Graph, h: Graph, slug: Text, edges: Set<Text>)
    requires
        tidy(g),
        g.dom().contains(slug),
        edges.finite(),
        forall|x: Text| #[trigger] edges.contains(x) ==> g.dom().contains(x),
        graph::rewrites(g, h, slug, g[slug].gated_by(edges)),
    ensures
        tidy(h),
        forall|x: Text| #[trigger] h[slug].blocked_by.contains(x) <==> edges.contains(x),
{
    order::by_text_is_strict();
    order::arrangement_exists(edges, order::by_text());
    assert(h.dom() =~= g.dom());
    assert forall|x: Text| #[trigger] h.dom().contains(x) implies tidy_head(h, x) by {
        assert(tidy_head(g, x));
        if x == slug {
            let blockers = h[slug].blocked_by;
            assert forall|i: int| 0 <= i < blockers.len() implies h.dom().contains(
                #[trigger] blockers[i],
            ) by {
                assert(blockers.contains(blockers[i]));
            }
        }
    }
    assert forall|a: Text, b: Text|
        #![trigger h.dom().contains(a), h.dom().contains(b)]
        h.dom().contains(a) && h.dom().contains(b) && a != b && h[a].parent
            == h[b].parent implies h[a].seq != h[b].seq by {
        assert(g.dom().contains(a) && g.dom().contains(b));
    }
}

/// An edge that is not refused leaves the tree sound. One that is forced leaves
/// it in good order all the same, though it may stand on itself.
pub proof fn linking_keeps_soundness(
    g: Graph,
    h: Graph,
    slug: Text,
    blocked_by: Text,
    force: bool,
)
    requires
        tidy(g),
        graph::link_refusal(g, slug, blocked_by, force) is None,
        graph::links(g, h, slug, blocked_by),
    ensures
        tidy(h),
        acyclic(g) && !force ==> acyclic(h),
{
    let blockers = g[slug].blocked_by;
    if !blockers.contains(blocked_by) {
        let edges = blockers.to_set().insert(blocked_by);
        vstd::seq_lib::seq_to_set_is_finite(blockers);
        assert(tidy_head(g, slug));
        lemma_regated(g, h, slug, edges);
        if acyclic(g) && !force {
            assert forall|x: Text| #[trigger]
                walk::premises(h, true, slug).contains(x) implies walk::premises(
                g,
                true,
                slug,
            ).contains(x) || !walk::stands_on(g, true, x, slug) by {
                cascade::lemma_depends(h, slug, x);
                cascade::lemma_depends(g, slug, x);
            }
            lemma_stays_acyclic(g, h, slug);
        }
    }
}

/// To take a blocker off leaves the tree sound.
pub proof fn unlinking_keeps_soundness(g: Graph, h: Graph, slug: Text, blocked_by: Text)
    requires
        tidy(g),
        graph::unlink_refusal(g, slug) is None,
        graph::unlinks(g, h, slug, blocked_by),
    ensures
        tidy(h),
        acyclic(g) ==> acyclic(h),
{
    let blockers = g[slug].blocked_by;
    if blockers.contains(blocked_by) {
        let edges = blockers.to_set().remove(blocked_by);
        vstd::seq_lib::seq_to_set_is_finite(blockers);
        assert(tidy_head(g, slug));
        lemma_regated(g, h, slug, edges);
        if acyclic(g) {
            assert forall|x: Text| #[trigger]
                walk::premises(h, true, slug).contains(x) implies walk::premises(
                g,
                true,
                slug,
            ).contains(x) by {
                cascade::lemma_depends(h, slug, x);
                cascade::lemma_depends(g, slug, x);
            }
            lemma_stays_acyclic(g, h, slug);
        }
    }
}

// ---------------------------------------------------------------------------
// What a sound tree promises
// ---------------------------------------------------------------------------

/// `x` has a premise in `set`.
pub open spec fn leads_on(g: Graph, via_parent: bool, set: Set<Text>, x: Text) -> bool {
    exists|y: Text| set.contains(y) && #[trigger] walk::premises(g, via_parent, x).contains(y)
}

/// In a set in which every head has a premise there are walks as long as one
/// likes.
proof fn lemma_endless_walk(
    g: Graph,
    via_parent: bool,
    set: Set<Text>,
    slug: Text,
    n: nat,
) -> (path: Seq<Text>)
    requires
        set.contains(slug),
        forall|x: Text| #[trigger] set.contains(x) ==> leads_on(g, via_parent, set, x),
    ensures
        path.len() == n + 1,
        walk::follows(g, via_parent, path),
        forall|i: int| 0 <= i < path.len() ==> set.contains(#[trigger] path[i]),
    decreases n,
{
    if n == 0 {
        seq![slug]
    } else {
        let front = lemma_endless_walk(g, via_parent, set, slug, (n - 1) as nat);
        assert(set.contains(front[front.len() - 1]));
        assert(leads_on(g, via_parent, set, front.last()));
        let next = choose|y: Text|
            set.contains(y) && #[trigger] walk::premises(g, via_parent, front.last()).contains(y);
        let path = front.push(next);
        assert forall|i: int| 0 <= i < path.len() - 1 implies walk::premises(
            g,
            via_parent,
            #[trigger] path[i],
        ).contains(path[i + 1]) by {
            assert(path[i] == front[i]);
            if i < front.len() - 1 {
                assert(path[i + 1] == front[i + 1]);
            }
        }
        path
    }
}

/// A list longer than the set it is drawn from holds something twice.
pub proof fn lemma_repeats(path: Seq<Text>, set: Set<Text>) -> (r: (int, int))
    requires
        set.finite(),
        path.len() > set.len(),
        forall|i: int| 0 <= i < path.len() ==> set.contains(#[trigger] path[i]),
    ensures
        0 <= r.0 < r.1 < path.len(),
        path[r.0] == path[r.1],
{
    if path.no_duplicates() {
        path.unique_seq_to_set();
        assert(path.to_set().subset_of(set));
        vstd::set_lib::lemma_len_subset(path.to_set(), set);
    }
    let (i, j) = choose|i: int, j: int|
        0 <= i < path.len() && 0 <= j < path.len() && i != j && path[i] == path[j];
    if i < j {
        (i, j)
    } else {
        (j, i)
    }
}

/// A walk that comes back to where it was is closed.
proof fn lemma_comes_back(g: Graph, via_parent: bool, path: Seq<Text>, a: int, b: int)
    requires
        walk::follows(g, via_parent, path),
        0 <= a < b < path.len(),
        path[a] == path[b],
    ensures
        !acyclic_by(g, via_parent),
{
    let closed = path.subrange(a, b + 1);
    assert forall|k: int| 0 <= k < closed.len() - 1 implies walk::premises(
        g,
        via_parent,
        #[trigger] closed[k],
    ).contains(closed[k + 1]) by {
        assert(walk::premises(g, via_parent, path[a + k]).contains(path[a + k + 1]));
    }
    assert(walk::follows(g, via_parent, closed));
    assert(closed[0] == closed.last());
}

/// Where nothing stands on itself, some head of a finite set has no premise in
/// it.
pub proof fn some_head_has_no_premise_within(g: Graph, via_parent: bool, set: Set<Text>)
    requires
        acyclic_by(g, via_parent),
        set.finite(),
        set.len() > 0,
    ensures
        exists|x: Text| #[trigger] set.contains(x) && !leads_on(g, via_parent, set, x),
{
    if forall|x: Text| #[trigger] set.contains(x) ==> leads_on(g, via_parent, set, x) {
        let path = lemma_endless_walk(g, via_parent, set, set.choose(), set.len());
        let (a, b) = lemma_repeats(path, set);
        lemma_comes_back(g, via_parent, path, a, b);
    }
}

/// While a tree is not finished there is a head to ask, if its blockers exist and
/// do not block each other in a circle: its open heads cannot all be waiting for
/// one another.
pub proof fn open_heads_do_not_all_wait(g: Graph)
    requires
        g.dom().finite(),
        blockers_exist(g),
        acyclic_by(g, false),
        !state::finished(g),
    ensures
        exists|slug: Text| #[trigger] g.dom().contains(slug) && state::can_be_asked(g, g[slug]),
{
    let open = Set::new(|x: Text| g.dom().contains(x) && g[x].status == Status::Open);
    let one = choose|slug: Text| #[trigger]
        g.dom().contains(slug) && g[slug].status != Status::Answered;
    assert(open.subset_of(g.dom()));
    vstd::set_lib::lemma_set_subset_finite(g.dom(), open);
    assert(open.contains(one));
    if open.len() == 0 {
        assert(open =~= Set::empty());
    }
    some_head_has_no_premise_within(g, false, open);
    let slug = choose|x: Text| #[trigger] open.contains(x) && !leads_on(g, false, open, x);
    let blockers = g[slug].blocked_by;
    assert forall|i: int| 0 <= i < blockers.len() implies !state::unmet(
        g,
        #[trigger] blockers[i],
    ) by {
        assert(g.dom().contains(g[slug].blocked_by[i]));
        assert(walk::premises(g, false, slug).contains(blockers[i]));
        assert(!open.contains(blockers[i]));
    }
    assert(g.dom().contains(slug) && state::can_be_asked(g, g[slug]));
}

/// The blockers of a sound tree exist and do not block each other in a circle.
pub proof fn sound_tree_has_sound_blockers(g: Graph)
    requires
        sound(g),
    ensures
        blockers_exist(g),
        acyclic_by(g, false),
{
    assert forall|slug: Text, i: int|
        #![trigger g[slug].blocked_by[i]]
        g.dom().contains(slug) && 0 <= i < g[slug].blocked_by.len() implies g.dom().contains(
        g[slug].blocked_by[i],
    ) by {
        assert(tidy_head(g, slug));
    }
    assert forall|path: Seq<Text>|
        path.len() >= 2 && #[trigger] walk::follows(g, false, path) implies path[0]
        != path.last() by {
        assert forall|i: int| 0 <= i < path.len() - 1 implies walk::premises(
            g,
            true,
            #[trigger] path[i],
        ).contains(path[i + 1]) by {
            let few = walk::premises(g, false, path[i]);
            assert(few.contains(path[i + 1]));
            let k = choose|k: int| 0 <= k < few.len() && few[k] == path[i + 1];
            assert(walk::premises(g, true, path[i])[k] == path[i + 1]);
        }
        assert(walk::follows(g, true, path));
    }
}

/// While a sound tree is not finished there is a head to ask.
pub proof fn sound_tree_can_go_on(g: Graph)
    requires
        sound(g),
        !state::finished(g),
    ensures
        exists|slug: Text| #[trigger] g.dom().contains(slug) && state::can_be_asked(g, g[slug]),
{
    sound_tree_has_sound_blockers(g);
    open_heads_do_not_all_wait(g);
}

/// A finished tree has no head to ask.
pub proof fn finished_tree_asks_nothing(g: Graph, slug: Text)
    requires
        state::finished(g),
        g.dom().contains(slug),
    ensures
        !state::can_be_asked(g, g[slug]),
{
}

/// Where nothing stands on itself, to revise an answer reopens nothing that it
/// rests on, so the same answers cannot take each other back for ever.
pub proof fn revision_spares_its_premises(g: Graph, slug: Text, premise: Text)
    requires
        acyclic(g),
        walk::stands_on(g, true, slug, premise),
    ensures
        !cascade::stale(g, slug).contains(premise),
{
    if cascade::stale(g, slug).contains(premise) {
        lemma_join(g, premise, slug, premise);
        let path = choose|path: Seq<Text>|
            walk::connects(g, true, premise, premise, path) && (premise != slug ==> path.len()
                >= 2);
        assert(walk::follows(g, true, path));
    }
}

/// Once an answer was revised or withdrawn, nothing that stands on it is
/// answered.
pub proof fn nothing_stands_on_an_answer_that_moved(g: Graph, h: Graph, slug: Text, other: Text)
    requires
        g.dom().contains(slug),
        h[slug].parent == g[slug].parent,
        h[slug].blocked_by == g[slug].blocked_by,
        cascade::reopens(g.insert(slug, h[slug]), h, cascade::stale(g, slug)),
        h.dom().contains(other),
        other != slug,
        walk::stands_on(h, true, other, slug),
    ensures
        h[other].status == Status::Open,
{
    let mid = g.insert(slug, h[slug]);
    assert(mid.dom() =~= g.dom());
    assert(walk::same_edges(h, g)) by {
        assert forall|x: Text| #[trigger] h.dom().contains(x) implies h[x].parent == g[x].parent
            && h[x].blocked_by == g[x].blocked_by by {
            assert(mid.dom().contains(x));
        }
    }
    walk::same_edges_same_walks(h, g);
    assert(mid.dom().contains(other));
}

/// A head keeps the last answer that was superseded through a reopening and the
/// answer after it.
pub proof fn prior_survives_reopening_and_answering(head: HeadView, answer: AnswerView)
    requires
        head.answer is Some,
    ensures
        head.reopened().prior == head.answer,
        head.reopened().answered(answer).prior == head.answer,
        head.reopened().answered(answer).answer == Some(answer),
{
}

/// A revision is counted, and what it supersedes is kept.
pub proof fn revision_is_counted(head: HeadView, answer: AnswerView)
    requires
        head.rev < u32::MAX,
        head.answer is Some,
    ensures
        head.answered(answer).rev == head.rev + 1,
        head.answered(answer).prior == head.answer,
{
}

/// To reopen a head that was cauterised asks the question again: what killed it
/// stands in the prior answer, not in the present one.
pub proof fn reopening_is_not_cauterising(head: HeadView)
    requires
        state::cauterised(head),
    ensures
        !state::cauterised(head.reopened()),
        head.reopened().prior == head.answer,
{
}

/// To take an edge off again brings the blockers back to what they were, if they
/// were sorted.
pub proof fn unlinking_undoes_linking(g: Graph, h: Graph, k: Graph, slug: Text, blocked_by: Text)
    requires
        g.dom().contains(slug),
        order::ascends(g[slug].blocked_by, order::by_text()),
        !g[slug].blocked_by.contains(blocked_by),
        graph::links(g, h, slug, blocked_by),
        graph::unlinks(h, k, slug, blocked_by),
    ensures
        graph::rewrites(g, k, slug, g[slug]),
{
    let before = g[slug].blocked_by;
    let edges = before.to_set().insert(blocked_by);
    order::by_text_is_strict();
    vstd::seq_lib::seq_to_set_is_finite(before);
    order::arrangement_exists(edges, order::by_text());
    let mid = h[slug].blocked_by;
    assert(mid.contains(blocked_by));
    assert(mid.to_set() =~= edges);
    assert(edges.remove(blocked_by) =~= before.to_set());
    order::arranged_is(before, before.to_set(), order::by_text());
    assert(k =~= g.insert(slug, k[slug]));
}

/// To add an edge a second time changes nothing.
pub proof fn linking_twice_is_linking_once(g: Graph, h: Graph, k: Graph, slug: Text, blocked_by: Text)
    requires
        g.dom().contains(slug),
        graph::links(g, h, slug, blocked_by),
        graph::links(h, k, slug, blocked_by),
    ensures
        k == h,
{
    let before = g[slug].blocked_by;
    if !before.contains(blocked_by) {
        let edges = before.to_set().insert(blocked_by);
        order::by_text_is_strict();
        vstd::seq_lib::seq_to_set_is_finite(before);
        order::arrangement_exists(edges, order::by_text());
        assert(edges.contains(blocked_by));
    }
}

/// To take an edge off a second time changes nothing.
pub proof fn unlinking_twice_is_unlinking_once(
    g: Graph,
    h: Graph,
    k: Graph,
    slug: Text,
    blocked_by: Text,
)
    requires
        g.dom().contains(slug),
        graph::unlinks(g, h, slug, blocked_by),
        graph::unlinks(h, k, slug, blocked_by),
    ensures
        k == h,
{
    let before = g[slug].blocked_by;
    if before.contains(blocked_by) {
        let edges = before.to_set().remove(blocked_by);
        order::by_text_is_strict();
        vstd::seq_lib::seq_to_set_is_finite(before);
        order::arrangement_exists(edges, order::by_text());
        assert(!edges.contains(blocked_by));
    }
}

/// A new edge between two heads is refused exactly when the blocker stands on the
/// head already, by blockers and parents together, unless it is forced.
pub proof fn closing_edges_are_refused(g: Graph, slug: Text, blocked_by: Text)
    requires
        g.dom().contains(slug),
        g.dom().contains(blocked_by),
        !g[slug].blocked_by.contains(blocked_by),
    ensures
        graph::link_refusal(g, slug, blocked_by, false) is Some <==> walk::stands_on(
            g,
            true,
            blocked_by,
            slug,
        ),
        graph::link_refusal(g, slug, blocked_by, true) is None,
{
    if walk::stands_on(g, false, blocked_by, slug) {
        walk::blockers_are_premises(g, blocked_by, slug);
    }
}

/// A move under another head is refused exactly when that head stands on the one
/// to be moved, by blockers and parents together.
pub proof fn closing_moves_are_refused(g: Graph, slug: Text, parent: Text)
    requires
        g.dom().contains(slug),
        g.dom().contains(parent),
    ensures
        graph::reparent_refusal(g, slug, Some(parent)) is Some <==> walk::stands_on(
            g,
            true,
            parent,
            slug,
        ),
{
    if walk::line_between(g, slug, parent) is Some {
        let line = choose|line: Seq<Text>| walk::lineage(g, slug, parent, line);
        let path = line.reverse();
        assert forall|i: int| 0 <= i < path.len() - 1 implies walk::premises(
            g,
            true,
            #[trigger] path[i],
        ).contains(path[i + 1]) by {
            let k = line.len() - 1 - i;
            assert(path[i] == line[k]);
            assert(path[i + 1] == line[k - 1]);
            cascade::lemma_depends(g, line[k], line[k - 1]);
        }
        assert(walk::connects(g, true, parent, slug, path));
    }
}

/// To block a head by something that it stands on already closes no cycle and is
/// not refused: the edge runs the way that the tree does.
pub proof fn gating_on_a_premise_is_permitted(g: Graph, slug: Text, premise: Text)
    requires
        acyclic(g),
        g.dom().contains(slug),
        g.dom().contains(premise),
        slug != premise,
        walk::stands_on(g, true, slug, premise),
    ensures
        graph::link_refusal(g, slug, premise, false) is None,
{
    if !g[slug].blocked_by.contains(premise) {
        closing_edges_are_refused(g, slug, premise);
        if walk::stands_on(g, true, premise, slug) {
            lemma_join(g, slug, premise, slug);
            let path = choose|path: Seq<Text>|
                walk::connects(g, true, slug, slug, path) && (slug != premise ==> path.len() >= 2);
            assert(walk::follows(g, true, path));
        }
    }
}

/// Force lifts the rules on unanswered blockers, on an unanswered killer and on
/// cycles, and no other: what is refused in spite of it is refused without it, for
/// a head that does not exist or that would kill itself.
pub proof fn force_lifts_no_other_rule(g: Graph, slug: Text, other: Text)
    ensures
        graph::cut_refusal(g, slug, true) matches Some(e) ==> e is UnknownHead
            && graph::cut_refusal(g, slug, false) == Some(e),
        graph::cauterise_refusal(g, slug, other, true) matches Some(e) ==> (e is UnknownHead
            || e is SelfCauterise) && graph::cauterise_refusal(g, slug, other, false) == Some(e),
        graph::link_refusal(g, slug, other, true) matches Some(e) ==> (e is UnknownHead
            || e is UnknownBlocker) && graph::link_refusal(g, slug, other, false) == Some(e),
        graph::cut_refusal(g, slug, true) is None && graph::cut_refusal(g, slug, false) is Some
            ==> graph::cut_refusal(g, slug, false)->0 is BlockedCut,
        graph::cauterise_refusal(g, slug, other, true) is None && graph::cauterise_refusal(
            g,
            slug,
            other,
            false,
        ) is Some ==> graph::cauterise_refusal(g, slug, other, false)->0 is CauteriseByUnanswered,
        graph::link_refusal(g, slug, other, true) is None && graph::link_refusal(
            g,
            slug,
            other,
            false,
        ) is Some ==> graph::link_refusal(g, slug, other, false)->0 is BlockCycle
            || graph::link_refusal(g, slug, other, false)->0 is ReopenCycle,
{
}

} // verus!

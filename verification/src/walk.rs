//! Walks over the edges of a tree.
//!
//! A head stands on its premises: the heads it is blocked by and, where the
//! parent pointer counts as an edge too, its parent. A walk that follows
//! premises from one head to another shows that an edge the other way would
//! close a cycle.

use vstd::prelude::*;

use crate::model::{Graph, Tree};
use crate::text::{self, Text};

verus! {

// ---------------------------------------------------------------------------
// Premises
// ---------------------------------------------------------------------------

/// What `at` stands on, in the order in which it is followed: the heads it is
/// blocked by, then its parent if parents count.
pub open spec fn premises(g: Graph, via_parent: bool, at: Text) -> Seq<Text> {
    if g.dom().contains(at) {
        match g[at].parent {
            Some(parent) if via_parent => g[at].blocked_by.push(parent),
            _ => g[at].blocked_by,
        }
    } else {
        Seq::empty()
    }
}

/// Each step goes from a slug to one of its premises.
pub open spec fn follows(g: Graph, via_parent: bool, path: Seq<Text>) -> bool {
    forall|i: int|
        0 <= i < path.len() - 1 ==> premises(g, via_parent, #[trigger] path[i]).contains(
            path[i + 1],
        )
}

/// A walk of premises between two slugs, both ends included.
pub open spec fn connects(
    g: Graph,
    via_parent: bool,
    from: Text,
    to: Text,
    path: Seq<Text>,
) -> bool {
    &&& path.len() > 0
    &&& path[0] == from
    &&& path.last() == to
    &&& follows(g, via_parent, path)
}

/// There is a walk of premises from one slug to the other.
pub open spec fn stands_on(g: Graph, via_parent: bool, from: Text, to: Text) -> bool {
    exists|path: Seq<Text>| connects(g, via_parent, from, to, path)
}

/// Two graphs with the same heads and the same edges between them.
pub open spec fn same_edges(g: Graph, h: Graph) -> bool {
    &&& g.dom() == h.dom()
    &&& forall|slug: Text| #[trigger]
        g.dom().contains(slug) ==> g[slug].parent == h[slug].parent && g[slug].blocked_by
            == h[slug].blocked_by
}

/// What stands on what depends on the edges alone.
pub proof fn same_edges_same_walks(g: Graph, h: Graph)
    requires
        same_edges(g, h),
    ensures
        forall|via_parent: bool, from: Text, to: Text| #[trigger]
            stands_on(g, via_parent, from, to) == stands_on(h, via_parent, from, to),
{
    assert forall|via_parent: bool, at: Text| #[trigger]
        premises(g, via_parent, at) == premises(h, via_parent, at) by {
        assert(g.dom().contains(at) == h.dom().contains(at));
    }
    assert forall|via_parent: bool, from: Text, to: Text| #[trigger]
        stands_on(g, via_parent, from, to) == stands_on(h, via_parent, from, to) by {
        if stands_on(g, via_parent, from, to) {
            let path = choose|path: Seq<Text>| connects(g, via_parent, from, to, path);
            assert(follows(h, via_parent, path));
            assert(connects(h, via_parent, from, to, path));
        }
        if stands_on(h, via_parent, from, to) {
            let path = choose|path: Seq<Text>| connects(h, via_parent, from, to, path);
            assert forall|i: int| 0 <= i < path.len() - 1 implies premises(
                g,
                via_parent,
                #[trigger] path[i],
            ).contains(path[i + 1]) by {
                assert(premises(h, via_parent, path[i]).contains(path[i + 1]));
            }
            assert(connects(g, via_parent, from, to, path));
        }
    }
}

/// A walk of blockers is a walk of blockers and parents.
pub proof fn blockers_are_premises(g: Graph, from: Text, to: Text)
    requires
        stands_on(g, false, from, to),
    ensures
        stands_on(g, true, from, to),
{
    let path = choose|path: Seq<Text>| connects(g, false, from, to, path);
    assert forall|i: int| 0 <= i < path.len() - 1 implies premises(
        g,
        true,
        #[trigger] path[i],
    ).contains(path[i + 1]) by {
        let few = premises(g, false, path[i]);
        assert(few.contains(path[i + 1]));
        let k = choose|k: int| 0 <= k < few.len() && few[k] == path[i + 1];
        assert(premises(g, true, path[i])[k] == path[i + 1]);
    }
    assert(connects(g, true, from, to, path));
}

/// A walk that visits nothing twice.
pub open spec fn route(g: Graph, via_parent: bool, from: Text, to: Text, path: Seq<Text>) -> bool {
    connects(g, via_parent, from, to, path) && path.no_duplicates()
}

/// Where `x` first occurs in `list`.
pub open spec fn first_at(list: Seq<Text>, x: Text) -> int
    decreases list.len(),
{
    if list.len() == 0 || list[0] == x {
        0
    } else {
        1 + first_at(list.skip(1), x)
    }
}

/// Where the two routes part, `p` takes the earlier premise.
pub open spec fn takes_earlier(g: Graph, via_parent: bool, p: Seq<Text>, q: Seq<Text>) -> bool {
    exists|i: int|
        #![trigger p[i]]
        {
            &&& 0 <= i < p.len() - 1
            &&& i < q.len() - 1
            &&& p.take(i + 1) == q.take(i + 1)
            &&& first_at(premises(g, via_parent, p[i]), p[i + 1]) < first_at(
                premises(g, via_parent, p[i]),
                q[i + 1],
            )
        }
}

/// The first of all routes: at every fork it takes the earliest premise that
/// leads on.
pub open spec fn first_route(
    g: Graph,
    via_parent: bool,
    from: Text,
    to: Text,
    path: Seq<Text>,
) -> bool {
    &&& route(g, via_parent, from, to, path)
    &&& forall|q: Seq<Text>| #[trigger]
        route(g, via_parent, from, to, q) ==> q == path || takes_earlier(g, via_parent, path, q)
}

/// No two routes each take the earlier premise.
proof fn lemma_takes_earlier_one_way(g: Graph, via_parent: bool, p: Seq<Text>, q: Seq<Text>)
    requires
        takes_earlier(g, via_parent, p, q),
    ensures
        !takes_earlier(g, via_parent, q, p),
{
    if takes_earlier(g, via_parent, q, p) {
        let i = choose|i: int|
            #![trigger p[i]]
            {
                &&& 0 <= i < p.len() - 1
                &&& i < q.len() - 1
                &&& p.take(i + 1) == q.take(i + 1)
                &&& first_at(premises(g, via_parent, p[i]), p[i + 1]) < first_at(
                    premises(g, via_parent, p[i]),
                    q[i + 1],
                )
            };
        let j = choose|j: int|
            #![trigger q[j]]
            {
                &&& 0 <= j < q.len() - 1
                &&& j < p.len() - 1
                &&& q.take(j + 1) == p.take(j + 1)
                &&& first_at(premises(g, via_parent, q[j]), q[j + 1]) < first_at(
                    premises(g, via_parent, q[j]),
                    p[j + 1],
                )
            };
        assert(p[i] == p.take(i + 1)[i]);
        assert(q[i] == q.take(i + 1)[i]);
        assert(p[j] == p.take(j + 1)[j]);
        assert(q[j] == q.take(j + 1)[j]);
        if i < j {
            assert(p[i + 1] == p.take(j + 1)[i + 1]);
            assert(q[i + 1] == q.take(j + 1)[i + 1]);
        } else if j < i {
            assert(p[j + 1] == p.take(i + 1)[j + 1]);
            assert(q[j + 1] == q.take(i + 1)[j + 1]);
        }
    }
}

/// There is at most one first route between two slugs.
pub proof fn first_route_is_unique(
    g: Graph,
    via_parent: bool,
    from: Text,
    to: Text,
    p: Seq<Text>,
    q: Seq<Text>,
)
    requires
        first_route(g, via_parent, from, to, p),
        first_route(g, via_parent, from, to, q),
    ensures
        p == q,
{
    if p != q {
        lemma_takes_earlier_one_way(g, via_parent, p, q);
    }
}

/// The first route between two slugs, if one stands on the other.
pub open spec fn route_between(g: Graph, via_parent: bool, from: Text, to: Text) -> Option<
    Seq<Text>,
> {
    if stands_on(g, via_parent, from, to) {
        Some(choose|path: Seq<Text>| first_route(g, via_parent, from, to, path))
    } else {
        None
    }
}

/// A path as an optional list of slugs.
pub open spec fn path_view(path: Option<Vec<String>>) -> Option<Seq<Text>> {
    match path {
        Some(list) => Some(text::texts(list@)),
        None => None,
    }
}

/// The first route that stays clear of `avoid`.
spec fn first_clear_route(
    g: Graph,
    via_parent: bool,
    from: Text,
    to: Text,
    avoid: Seq<Text>,
    path: Seq<Text>,
) -> bool {
    &&& route(g, via_parent, from, to, path)
    &&& forall|i: int| 0 <= i < path.len() ==> !avoid.contains(#[trigger] path[i])
    &&& forall|q: Seq<Text>|
        #![trigger route(g, via_parent, from, to, q)]
        route(g, via_parent, from, to, q) && (forall|i: int|
            0 <= i < q.len() ==> !avoid.contains(#[trigger] q[i])) ==> q == path || takes_earlier(
            g,
            via_parent,
            path,
            q,
        )
}

proof fn lemma_first_at(list: Seq<Text>, x: Text, k: int)
    requires
        0 <= k < list.len(),
        list[k] == x,
    ensures
        0 <= first_at(list, x) <= k,
    decreases list.len(),
{
    if list[0] != x {
        assert(list.skip(1)[k - 1] == x);
        lemma_first_at(list.skip(1), x, k - 1);
    }
}

proof fn lemma_first_at_beyond(list: Seq<Text>, x: Text, k: int)
    requires
        0 <= k <= list.len(),
        forall|i: int| 0 <= i < k ==> #[trigger] list[i] != x,
    ensures
        first_at(list, x) >= k,
    decreases list.len(),
{
    if k == 0 {
        if list.len() > 0 {
            lemma_first_at_beyond(list.skip(1), x, 0);
        }
    } else {
        assert(list[0] != x);
        assert forall|i: int| 0 <= i < k - 1 implies #[trigger] list.skip(1)[i] != x by {
            assert(list[i + 1] != x);
        }
        lemma_first_at_beyond(list.skip(1), x, k - 1);
    }
}

/// Everything that has been seen and is no longer under way has all its
/// premises among the seen, and none of it is the goal.
spec fn settled(
    g: Graph,
    via_parent: bool,
    to: Text,
    seen: Set<Text>,
    under_way: Seq<Text>,
) -> bool {
    &&& !seen.contains(to)
    &&& forall|i: int| 0 <= i < under_way.len() ==> seen.contains(#[trigger] under_way[i])
    &&& forall|y: Text, z: Text|
        #![trigger premises(g, via_parent, y).contains(z)]
        seen.contains(y) && !under_way.contains(y) && premises(g, via_parent, y).contains(z)
            ==> seen.contains(z)
}

/// A walk from a settled slug to the goal passes through one that is under way.
proof fn lemma_settled_is_closed(
    g: Graph,
    via_parent: bool,
    to: Text,
    seen: Set<Text>,
    under_way: Seq<Text>,
    walk: Seq<Text>,
    k: int,
)
    requires
        settled(g, via_parent, to, seen, under_way),
        walk.len() > 0,
        follows(g, via_parent, walk),
        walk.last() == to,
        seen.contains(walk[0]),
        forall|i: int| 0 <= i < walk.len() ==> !under_way.contains(#[trigger] walk[i]),
        0 <= k < walk.len(),
    ensures
        seen.contains(walk[k]),
    decreases k,
{
    if k > 0 {
        lemma_settled_is_closed(g, via_parent, to, seen, under_way, walk, k - 1);
        assert(premises(g, via_parent, walk[k - 1]).contains(walk[k - 1 + 1]));
    }
}

/// A route put in front of by one more premise is a route.
proof fn lemma_prepend(
    g: Graph,
    via_parent: bool,
    at: Text,
    next: Text,
    to: Text,
    under_way: Seq<Text>,
    tail: Seq<Text>,
)
    requires
        !under_way.contains(at),
        premises(g, via_parent, at).contains(next),
        route(g, via_parent, next, to, tail),
        forall|i: int| 0 <= i < tail.len() ==> !under_way.push(at).contains(#[trigger] tail[i]),
    ensures
        route(g, via_parent, at, to, seq![at] + tail),
        forall|i: int|
            0 <= i < tail.len() + 1 ==> !under_way.contains(#[trigger] (seq![at] + tail)[i]),
{
    let stack = under_way.push(at);
    let path = seq![at] + tail;
    assert(stack[under_way.len() as int] == at);
    assert(stack.contains(at));
    assert forall|i: int| 0 <= i < path.len() - 1 implies premises(
        g,
        via_parent,
        #[trigger] path[i],
    ).contains(path[i + 1]) by {
        if i > 0 {
            assert(path[i] == tail[i - 1]);
            assert(path[i + 1] == tail[i - 1 + 1]);
        }
    }
    assert forall|i: int, j: int| 0 <= i < path.len() && 0 <= j < path.len() && i != j implies path[i]
        != path[j] by {
        if i > 0 {
            assert(path[i] == tail[i - 1]);
        }
        if j > 0 {
            assert(path[j] == tail[j - 1]);
        }
    }
    assert forall|i: int| 0 <= i < path.len() implies !under_way.contains(#[trigger] path[i]) by {
        if i > 0 {
            assert(path[i] == tail[i - 1]);
            if under_way.contains(path[i]) {
                let k = choose|k: int| 0 <= k < under_way.len() && under_way[k] == path[i];
                assert(stack[k] == tail[i - 1]);
            }
        }
    }
    assert(path.last() == to);
}

/// What is left of a route after its first step is a route that stays clear of
/// where it started.
proof fn lemma_behead(
    g: Graph,
    via_parent: bool,
    at: Text,
    to: Text,
    under_way: Seq<Text>,
    q: Seq<Text>,
)
    requires
        at != to,
        route(g, via_parent, at, to, q),
        forall|i: int| 0 <= i < q.len() ==> !under_way.contains(#[trigger] q[i]),
    ensures
        q.len() >= 2,
        premises(g, via_parent, at).contains(q[1]),
        route(g, via_parent, q[1], to, q.skip(1)),
        forall|i: int|
            0 <= i < q.skip(1).len() ==> !under_way.push(at).contains(#[trigger] q.skip(1)[i]),
{
    assert(q.len() >= 2);
    let rest = q.skip(1);
    let stack = under_way.push(at);
    assert(premises(g, via_parent, q[0]).contains(q[0 + 1int]));
    assert forall|i: int| 0 <= i < rest.len() - 1 implies premises(
        g,
        via_parent,
        #[trigger] rest[i],
    ).contains(rest[i + 1]) by {
        assert(premises(g, via_parent, q[i + 1]).contains(q[i + 1 + 1]));
    }
    assert forall|i: int| 0 <= i < rest.len() implies !stack.contains(#[trigger] rest[i]) by {
        assert(rest[i] == q[i + 1]);
        assert(q[i + 1] != q[0]);
        if stack.contains(rest[i]) {
            let j = choose|j: int| 0 <= j < stack.len() && stack[j] == rest[i];
            if j < under_way.len() {
                assert(under_way[j] == q[i + 1]);
            }
        }
    }
    assert(rest.no_duplicates());
}

proof fn lemma_takes_earlier_shifts(
    g: Graph,
    via_parent: bool,
    at: Text,
    tail: Seq<Text>,
    rest: Seq<Text>,
)
    requires
        takes_earlier(g, via_parent, tail, rest),
    ensures
        takes_earlier(g, via_parent, seq![at] + tail, seq![at] + rest),
{
    let path = seq![at] + tail;
    let q = seq![at] + rest;
    let i = choose|i: int|
        #![trigger tail[i]]
        {
            &&& 0 <= i < tail.len() - 1
            &&& i < rest.len() - 1
            &&& tail.take(i + 1) == rest.take(i + 1)
            &&& first_at(premises(g, via_parent, tail[i]), tail[i + 1]) < first_at(
                premises(g, via_parent, tail[i]),
                rest[i + 1],
            )
        };
    let j = i + 1;
    assert(path[j] == tail[i]);
    assert(path[j + 1] == tail[i + 1]);
    assert(q[j + 1] == rest[i + 1]);
    assert(path.take(j + 1) =~= seq![at] + tail.take(i + 1));
    assert(q.take(j + 1) =~= seq![at] + rest.take(i + 1));
}

/// The step that the search takes when a premise leads on.
proof fn lemma_route_extends(
    g: Graph,
    via_parent: bool,
    at: Text,
    to: Text,
    under_way: Seq<Text>,
    seen: Set<Text>,
    k: int,
    tail: Seq<Text>,
)
    requires
        at != to,
        !under_way.contains(at),
        settled(g, via_parent, to, seen, under_way.push(at)),
        0 <= k < premises(g, via_parent, at).len(),
        forall|i: int|
            0 <= i < k ==> seen.contains(#[trigger] premises(g, via_parent, at)[i]),
        first_clear_route(
            g,
            via_parent,
            premises(g, via_parent, at)[k],
            to,
            under_way.push(at),
            tail,
        ),
    ensures
        first_clear_route(g, via_parent, at, to, under_way, seq![at] + tail),
{
    let edges = premises(g, via_parent, at);
    let next = edges[k];
    let stack = under_way.push(at);
    let path = seq![at] + tail;
    assert(edges.contains(next));
    lemma_prepend(g, via_parent, at, next, to, under_way, tail);
    assert forall|q: Seq<Text>|
        #![trigger route(g, via_parent, at, to, q)]
        route(g, via_parent, at, to, q) && (forall|i: int|
            0 <= i < q.len() ==> !under_way.contains(#[trigger] q[i])) implies q == path
        || takes_earlier(g, via_parent, path, q) by {
        lemma_behead(g, via_parent, at, to, under_way, q);
        let rest = q.skip(1);
        assert(q =~= seq![at] + rest);
        if q[1] == next {
            if rest != tail {
                lemma_takes_earlier_shifts(g, via_parent, at, tail, rest);
            }
        } else {
            lemma_later_premise(g, via_parent, at, to, under_way, seen, k, rest);
            assert(path[0] == at);
            assert(path[1] == next);
            assert(path.take(1) =~= q.take(1));
            assert(first_at(edges, path[0int + 1]) < first_at(edges, q[0int + 1]));
        }
    }
}

/// A premise that was tried before has led nowhere, so a route that begins with
/// another premise begins with a later one.
proof fn lemma_later_premise(
    g: Graph,
    via_parent: bool,
    at: Text,
    to: Text,
    under_way: Seq<Text>,
    seen: Set<Text>,
    k: int,
    rest: Seq<Text>,
)
    requires
        settled(g, via_parent, to, seen, under_way.push(at)),
        0 <= k < premises(g, via_parent, at).len(),
        forall|i: int|
            0 <= i < k ==> seen.contains(#[trigger] premises(g, via_parent, at)[i]),
        rest.len() > 0,
        rest[0] != premises(g, via_parent, at)[k],
        route(g, via_parent, rest[0], to, rest),
        forall|i: int| 0 <= i < rest.len() ==> !under_way.push(at).contains(#[trigger] rest[i]),
    ensures
        first_at(premises(g, via_parent, at), premises(g, via_parent, at)[k]) < first_at(
            premises(g, via_parent, at),
            rest[0],
        ),
{
    let edges = premises(g, via_parent, at);
    assert forall|i: int| 0 <= i < k + 1 implies #[trigger] edges[i] != rest[0] by {
        if i < k && edges[i] == rest[0] {
            lemma_settled_is_closed(
                g,
                via_parent,
                to,
                seen,
                under_way.push(at),
                rest,
                rest.len() - 1,
            );
        }
    }
    lemma_first_at(edges, edges[k], k);
    lemma_first_at_beyond(edges, rest[0], k + 1);
}

proof fn lemma_fewer_unseen(dom: Set<Text>, less: Set<Text>, more: Set<Text>, at: Text)
    requires
        dom.finite(),
        dom.contains(at),
        !less.contains(at),
        more.contains(at),
        less.subset_of(more),
    ensures
        dom.difference(more).len() < dom.difference(less).len(),
{
    let a = dom.difference(more);
    let b = dom.difference(less);
    assert(a.insert(at).subset_of(b));
    vstd::set_lib::lemma_len_subset(a.insert(at), b);
}

/// There is a route to the goal that stays clear of `avoid`.
spec fn leads(g: Graph, via_parent: bool, at: Text, to: Text, avoid: Seq<Text>) -> bool {
    exists|q: Seq<Text>|
        #![trigger route(g, via_parent, at, to, q)]
        route(g, via_parent, at, to, q) && (forall|i: int|
            0 <= i < q.len() ==> !avoid.contains(#[trigger] q[i]))
}

/// A walk that comes back to where it was can be cut short there.
proof fn lemma_cut_loop(
    g: Graph,
    via_parent: bool,
    from: Text,
    to: Text,
    path: Seq<Text>,
    a: int,
    b: int,
) -> (short: Seq<Text>)
    requires
        connects(g, via_parent, from, to, path),
        0 <= a < b < path.len(),
        path[a] == path[b],
    ensures
        connects(g, via_parent, from, to, short),
        short.len() < path.len(),
{
    let short = path.take(a) + path.skip(b);
    assert(short.len() == a + path.len() - b);
    assert forall|k: int| 0 <= k < short.len() - 1 implies premises(
        g,
        via_parent,
        #[trigger] short[k],
    ).contains(short[k + 1]) by {
        if k < a {
            assert(short[k] == path[k]);
            if k + 1 == a {
                assert(short[k + 1] == path[b]);
            }
            assert(short[k + 1] == path[k + 1]);
        } else {
            assert(short[k] == path[k - a + b]);
            assert(short[k + 1] == path[k - a + b + 1]);
        }
    }
    assert(short[0] == from);
    assert(short.last() == path.last());
    short
}

/// A walk between two slugs can be cut down to a route.
proof fn lemma_walk_has_a_route(g: Graph, via_parent: bool, from: Text, to: Text, path: Seq<Text>)
    requires
        connects(g, via_parent, from, to, path),
    ensures
        leads(g, via_parent, from, to, Seq::empty()),
    decreases path.len(),
{
    if path.no_duplicates() {
        assert(route(g, via_parent, from, to, path));
    } else {
        let (i, j) = choose|i: int, j: int|
            0 <= i < path.len() && 0 <= j < path.len() && i != j && path[i] == path[j];
        let short = if i < j {
            lemma_cut_loop(g, via_parent, from, to, path, i, j)
        } else {
            lemma_cut_loop(g, via_parent, from, to, path, j, i)
        };
        lemma_walk_has_a_route(g, via_parent, from, to, short);
    }
}

/// What has a premise that leads to the goal leads there too, unless it is to be
/// avoided itself.
proof fn lemma_leads_back(
    g: Graph,
    via_parent: bool,
    at: Text,
    next: Text,
    to: Text,
    avoid: Seq<Text>,
)
    requires
        !avoid.contains(at),
        premises(g, via_parent, at).contains(next),
        leads(g, via_parent, next, to, avoid),
    ensures
        leads(g, via_parent, at, to, avoid),
{
    let q = choose|q: Seq<Text>|
        #![trigger route(g, via_parent, next, to, q)]
        route(g, via_parent, next, to, q) && (forall|i: int|
            0 <= i < q.len() ==> !avoid.contains(#[trigger] q[i]));
    if q.contains(at) {
        let k = choose|k: int| 0 <= k < q.len() && q[k] == at;
        let rest = q.skip(k);
        assert forall|i: int| 0 <= i < rest.len() - 1 implies premises(
            g,
            via_parent,
            #[trigger] rest[i],
        ).contains(rest[i + 1]) by {
            assert(rest[i] == q[i + k]);
            assert(rest[i + 1] == q[i + k + 1]);
        }
        assert(route(g, via_parent, at, to, rest));
        assert forall|i: int| 0 <= i < rest.len() implies !avoid.contains(#[trigger] rest[i]) by {
            assert(rest[i] == q[i + k]);
        }
    } else {
        assert forall|i: int| 0 <= i < q.len() implies !avoid.push(at).contains(
            #[trigger] q[i],
        ) by {
            if avoid.push(at).contains(q[i]) {
                let j = choose|j: int| 0 <= j < avoid.len() + 1 && avoid.push(at)[j] == q[i];
                if j < avoid.len() {
                    assert(avoid[j] == q[i]);
                }
            }
        }
        lemma_prepend(g, via_parent, at, next, to, avoid, q);
        let path = seq![at] + q;
        assert(route(g, via_parent, at, to, path));
    }
}

/// The earliest premise from `from` on that leads to the goal.
proof fn lemma_earliest_premise(
    g: Graph,
    via_parent: bool,
    edges: Seq<Text>,
    to: Text,
    avoid: Seq<Text>,
    from: int,
    known: int,
) -> (k: int)
    requires
        0 <= from <= known < edges.len(),
        leads(g, via_parent, edges[known], to, avoid),
        forall|i: int|
            0 <= i < from ==> !leads(g, via_parent, #[trigger] edges[i], to, avoid),
    ensures
        0 <= k < edges.len(),
        leads(g, via_parent, edges[k], to, avoid),
        forall|i: int| 0 <= i < k ==> !leads(g, via_parent, #[trigger] edges[i], to, avoid),
    decreases known - from,
{
    if leads(g, via_parent, edges[from], to, avoid) {
        from
    } else {
        lemma_earliest_premise(g, via_parent, edges, to, avoid, from + 1, known)
    }
}

/// Where there is a route there is a first one.
proof fn lemma_first_clear_route_exists(
    g: Graph,
    via_parent: bool,
    at: Text,
    to: Text,
    avoid: Seq<Text>,
) -> (path: Seq<Text>)
    requires
        g.dom().finite(),
        leads(g, via_parent, at, to, avoid),
    ensures
        first_clear_route(g, via_parent, at, to, avoid, path),
    decreases g.dom().difference(avoid.to_set()).len(),
{
    let q = choose|q: Seq<Text>|
        #![trigger route(g, via_parent, at, to, q)]
        route(g, via_parent, at, to, q) && (forall|i: int|
            0 <= i < q.len() ==> !avoid.contains(#[trigger] q[i]));
    assert(!avoid.contains(q[0]));
    if at == to {
        let path = seq![at];
        assert(follows(g, via_parent, path));
        assert forall|r: Seq<Text>| #[trigger] route(g, via_parent, at, to, r) implies r == path by {
            assert(r[0] == r[r.len() - 1]);
            assert(r =~= path);
        }
        path
    } else {
        let edges = premises(g, via_parent, at);
        let stack = avoid.push(at);
        lemma_behead(g, via_parent, at, to, avoid, q);
        let known = choose|known: int| 0 <= known < edges.len() && edges[known] == q[1];
        assert(route(g, via_parent, edges[known], to, q.skip(1)));
        let k = lemma_earliest_premise(g, via_parent, edges, to, stack, 0, known);
        assert forall|x: Text| stack.contains(x) <==> avoid.contains(x) || x == at by {
            if avoid.contains(x) {
                let i = choose|i: int| 0 <= i < avoid.len() && avoid[i] == x;
                assert(stack[i] == x);
            }
            if x == at {
                assert(stack[avoid.len() as int] == x);
            }
        }
        lemma_fewer_unseen(g.dom(), avoid.to_set(), stack.to_set(), at);
        let tail = lemma_first_clear_route_exists(g, via_parent, edges[k], to, stack);
        // What leads nowhere is as good as seen.
        let seen = Set::new(
            |y: Text| stack.contains(y) || !leads(g, via_parent, y, to, stack),
        );
        assert(settled(g, via_parent, to, seen, stack)) by {
            assert(!stack.contains(tail[tail.len() - 1]));
            let alone = seq![to];
            assert(follows(g, via_parent, alone));
            assert(route(g, via_parent, to, to, alone));
            assert forall|y: Text, z: Text|
                #![trigger premises(g, via_parent, y).contains(z)]
                seen.contains(y) && !stack.contains(y) && premises(g, via_parent, y).contains(
                    z,
                ) implies seen.contains(z) by {
                if !seen.contains(z) {
                    lemma_leads_back(g, via_parent, y, z, to, stack);
                }
            }
        }
        lemma_route_extends(g, via_parent, at, to, avoid, seen, k, tail);
        seq![at] + tail
    }
}

/// Where one slug stands on another in a finite tree there is a first route
/// between them, and it is the one that is reported.
pub proof fn route_between_is_the_first(g: Graph, via_parent: bool, from: Text, to: Text)
    requires
        g.dom().finite(),
        stands_on(g, via_parent, from, to),
    ensures
        route_between(g, via_parent, from, to) is Some,
        first_route(g, via_parent, from, to, route_between(g, via_parent, from, to)->0),
{
    let none = Seq::<Text>::empty();
    let walk = choose|path: Seq<Text>| connects(g, via_parent, from, to, path);
    lemma_walk_has_a_route(g, via_parent, from, to, walk);
    let path = lemma_first_clear_route_exists(g, via_parent, from, to, none);
    assert(first_route(g, via_parent, from, to, path));
}

pub proof fn lemma_push_set(list: Seq<String>, x: String)
    ensures
        text::texts(list.push(x)) == text::texts(list).push(x@),
        text::texts(list.push(x)).to_set() == text::texts(list).to_set().insert(x@),
{
    let a = text::texts(list);
    let b = text::texts(list.push(x));
    assert(b =~= a.push(x@));
    assert forall|y: Text| b.contains(y) <==> a.to_set().insert(x@).contains(y) by {
        if b.contains(y) {
            let i = choose|i: int| 0 <= i < b.len() && b[i] == y;
            if i < a.len() {
                assert(a[i] == y);
                assert(a.contains(y));
            }
        }
        if a.contains(y) {
            let i = choose|i: int| 0 <= i < a.len() && a[i] == y;
            assert(b[i] == y);
        }
        if y == x@ {
            assert(b[a.len() as int] == y);
        }
    }
    assert(b.to_set() =~= a.to_set().insert(x@));
}

/// Searches for `to` from `at`, premise by premise. `seen` holds what has been
/// tried and `path` what is under way; on success `path` has been extended by
/// the route.
fn search(
    tree: &Tree,
    at: &str,
    to: &str,
    via_parent: bool,
    seen: &mut Vec<String>,
    path: &mut Vec<String>,
) -> (found: bool)
    requires
        tree@.heads.dom().finite(),
        settled(
            tree@.heads,
            via_parent,
            to@,
            text::texts(old(seen)@).to_set(),
            text::texts(old(path)@),
        ),
    ensures
        found ==> exists|r: Seq<Text>|
            {
                &&& text::texts(final(path)@) == text::texts(old(path)@) + r
                &&& #[trigger] first_clear_route(
                    tree@.heads,
                    via_parent,
                    at@,
                    to@,
                    text::texts(old(path)@),
                    r,
                )
            },
        !found ==> {
            &&& text::texts(final(path)@) == text::texts(old(path)@)
            &&& settled(
                tree@.heads,
                via_parent,
                to@,
                text::texts(final(seen)@).to_set(),
                text::texts(old(path)@),
            )
            &&& text::texts(old(seen)@).to_set().subset_of(text::texts(final(seen)@).to_set())
            &&& text::texts(final(seen)@).to_set().contains(at@)
        },
    decreases tree@.heads.dom().difference(text::texts(old(seen)@).to_set()).len(),
{
    let ghost g = tree@.heads;
    let ghost goal = to@;
    let ghost start = text::texts(path@);
    let ghost seen0 = text::texts(seen@).to_set();
    if text::listed(seen, at) {
        return false;
    }
    let ghost a = at@;
    let first = text::owned(at);
    let second = text::owned(at);
    proof {
        lemma_push_set(seen@, first);
        lemma_push_set(path@, second);
        assert(!start.contains(a)) by {
            if start.contains(a) {
                let i = choose|i: int| 0 <= i < start.len() && start[i] == a;
                assert(seen0.contains(start[i]));
            }
        }
    }
    seen.push(first);
    path.push(second);
    let ghost stack = start.push(a);
    if text::same(at, to) {
        proof {
            let r = seq![a];
            assert(text::texts(path@) =~= start + r);
            assert(follows(g, via_parent, r));
            assert forall|q: Seq<Text>| #[trigger]
                route(g, via_parent, a, goal, q) implies q == r by {
                assert(q[0] == q[q.len() - 1]);
                assert(q.len() == 1);
                assert(q =~= r);
            }
            assert(first_clear_route(g, via_parent, a, goal, start, r));
        }
        return true;
    }
    proof {
        assert forall|x: Text| start.contains(x) implies stack.contains(x) by {
            let i = choose|i: int| 0 <= i < start.len() && start[i] == x;
            assert(stack[i] == x);
        }
        assert(stack.contains(a)) by {
            assert(stack[start.len() as int] == a);
        }
        let now = text::texts(seen@).to_set();
        assert forall|i: int| 0 <= i < stack.len() implies now.contains(#[trigger] stack[i]) by {
            if i < start.len() {
                assert(seen0.contains(start[i]));
            }
        }
        assert(settled(g, via_parent, goal, now, stack));
    }
    match tree.heads.get(at) {
        None => {
            assert(premises(g, via_parent, a) =~= Seq::<Text>::empty());
        },
        Some(head) => {
            let ghost edges = premises(g, via_parent, a);
            let ghost blockers = text::texts(head.blocked_by@);
            assert(blockers == g[a].blocked_by);
            let mut k: usize = 0;
            while k < head.blocked_by.len()
                invariant
                    g == tree@.heads,
                    g.dom().finite(),
                    g.dom().contains(a),
                    a == at@,
                    goal == to@,
                    a != goal,
                    !start.contains(a),
                    stack == start.push(a),
                    seen0 == text::texts(old(seen)@).to_set(),
                    start == text::texts(old(path)@),
                    !seen0.contains(a),
                    seen0.subset_of(text::texts(seen@).to_set()),
                    text::texts(seen@).to_set().contains(a),
                    text::texts(path@) == stack,
                    settled(g, via_parent, goal, text::texts(seen@).to_set(), stack),
                    blockers == text::texts(head.blocked_by@),
                    edges == premises(g, via_parent, a),
                    blockers == g[a].blocked_by,
                    edges.len() >= blockers.len(),
                    forall|i: int| 0 <= i < blockers.len() ==> edges[i] == #[trigger] blockers[i],
                    k <= blockers.len(),
                    forall|i: int|
                        0 <= i < k ==> text::texts(seen@).to_set().contains(#[trigger] edges[i]),
                decreases head.blocked_by@.len() - k,
            {
                let ghost before = text::texts(seen@).to_set();
                proof {
                    assert(edges[k as int] == blockers[k as int]);
                    assert(blockers[k as int] == head.blocked_by@[k as int]@);
                    lemma_fewer_unseen(g.dom(), seen0, before, a);
                }
                if search(tree, head.blocked_by[k].as_str(), to, via_parent, seen, path) {
                    proof {
                        let r = choose|r: Seq<Text>|
                            {
                                &&& text::texts(path@) == stack + r
                                &&& #[trigger] first_clear_route(
                                    g,
                                    via_parent,
                                    edges[k as int],
                                    goal,
                                    stack,
                                    r,
                                )
                            };
                        lemma_route_extends(g, via_parent, a, goal, start, before, k as int, r);
                        assert(stack + r =~= start + (seq![a] + r));
                    }
                    return true;
                }
                k = k + 1;
            }
            let ghost before = text::texts(seen@).to_set();
            if via_parent {
                if let Some(parent) = &head.parent {
                    let ghost last = blockers.len() as int;
                    proof {
                        assert(edges =~= blockers.push(parent@));
                        assert(edges[last] == parent@);
                        lemma_fewer_unseen(g.dom(), seen0, before, a);
                    }
                    if search(tree, parent.as_str(), to, via_parent, seen, path) {
                        proof {
                            let r = choose|r: Seq<Text>|
                                {
                                    &&& text::texts(path@) == stack + r
                                    &&& #[trigger] first_clear_route(
                                        g,
                                        via_parent,
                                        parent@,
                                        goal,
                                        stack,
                                        r,
                                    )
                                };
                            lemma_route_extends(g, via_parent, a, goal, start, before, last, r);
                            assert(stack + r =~= start + (seq![a] + r));
                        }
                        return true;
                    }
                }
            }
            assert forall|z: Text| #[trigger]
                premises(g, via_parent, a).contains(z) implies text::texts(
                seen@,
            ).to_set().contains(z) by {
                let i = choose|i: int| 0 <= i < edges.len() && edges[i] == z;
                assert(edges[i] == z);
            }
        },
    }
    proof {
        let now = text::texts(seen@).to_set();
        assert forall|i: int| 0 <= i < start.len() implies now.contains(#[trigger] start[i]) by {
            assert(stack[i] == start[i]);
        }
        assert forall|y: Text, z: Text|
            #![trigger premises(g, via_parent, y).contains(z)]
            now.contains(y) && !start.contains(y) && premises(g, via_parent, y).contains(
                z,
            ) implies now.contains(z) by {
            if y != a {
                assert(!stack.contains(y)) by {
                    if stack.contains(y) {
                        let i = choose|i: int| 0 <= i < stack.len() && stack[i] == y;
                        assert(start[i] == y);
                    }
                }
            }
        }
        assert(text::texts(path@.drop_last()) =~= start) by {
            assert(text::texts(path@) =~= stack);
            assert forall|i: int| 0 <= i < start.len() implies text::texts(path@.drop_last())[i]
                == start[i] by {
                assert(text::texts(path@)[i] == stack[i]);
            }
        }
    }
    path.pop();
    false
}

/// The first route of premises from one slug to another, if there is any.
pub fn walk_premises(tree: &Tree, from: &str, to: &str, via_parent: bool) -> (r: Option<
    Vec<String>,
>)
    ensures
        match r {
            Some(path) => first_route(tree@.heads, via_parent, from@, to@, text::texts(path@)),
            None => !stands_on(tree@.heads, via_parent, from@, to@),
        },
        path_view(r) == route_between(tree@.heads, via_parent, from@, to@),
{
    let mut path: Vec<String> = Vec::new();
    let mut seen: Vec<String> = Vec::new();
    proof {
        use_type_invariant(&tree.heads);
        crate::heads::lemma_zipped(tree.heads.keys(), tree.heads.values());
    }
    let ghost g = tree@.heads;
    proof {
        assert(text::texts(seen@) =~= Seq::<Text>::empty());
        assert(text::texts(path@) =~= Seq::<Text>::empty());
    }
    if search(tree, from, to, via_parent, &mut seen, &mut path) {
        proof {
            let none = Seq::<Text>::empty();
            let r = choose|r: Seq<Text>|
                {
                    &&& text::texts(path@) == none + r
                    &&& #[trigger] first_clear_route(g, via_parent, from@, to@, none, r)
                };
            assert(none + r =~= r);
            assert(first_route(g, via_parent, from@, to@, r));
            assert(stands_on(g, via_parent, from@, to@));
            let first = choose|path: Seq<Text>| first_route(g, via_parent, from@, to@, path);
            first_route_is_unique(g, via_parent, from@, to@, r, first);
        }
        Some(path)
    } else {
        proof {
            if stands_on(g, via_parent, from@, to@) {
                let walk = choose|walk: Seq<Text>| connects(g, via_parent, from@, to@, walk);
                lemma_settled_is_closed(
                    g,
                    via_parent,
                    to@,
                    text::texts(seen@).to_set(),
                    Seq::empty(),
                    walk,
                    walk.len() - 1,
                );
            }
        }
        None
    }
}

// ---------------------------------------------------------------------------
// Ancestry
// ---------------------------------------------------------------------------

/// Each slug but the first names the one before it as its parent.
pub open spec fn descends(g: Graph, line: Seq<Text>) -> bool {
    forall|i: int|
        #![trigger line[i]]
        0 < i < line.len() ==> g.dom().contains(line[i]) && g[line[i]].parent == Some(line[i - 1])
}

/// The line of descent from an ancestor down to a slug, both ends included,
/// with no slug twice.
pub open spec fn lineage(g: Graph, ancestor: Text, of: Text, line: Seq<Text>) -> bool {
    &&& line.len() > 0
    &&& line[0] == ancestor
    &&& line.last() == of
    &&& line.no_duplicates()
    &&& descends(g, line)
}

/// The slug that the parent pointers lead to in `n` steps, and the slugs on the
/// way are those of any other line that ends at the same slug.
proof fn lemma_lines_agree(g: Graph, p: Seq<Text>, q: Seq<Text>, n: int)
    requires
        descends(g, p),
        descends(g, q),
        p.len() > 0,
        q.len() > 0,
        p.last() == q.last(),
        0 <= n < p.len(),
        n < q.len(),
    ensures
        p[p.len() - 1 - n] == q[q.len() - 1 - n],
    decreases n,
{
    if n > 0 {
        lemma_lines_agree(g, p, q, n - 1);
        assert(p[p.len() - 1 - (n - 1)] == q[q.len() - 1 - (n - 1)]);
    }
}

/// There is at most one line of descent between two slugs.
pub proof fn lineage_is_unique(g: Graph, ancestor: Text, of: Text, p: Seq<Text>, q: Seq<Text>)
    requires
        lineage(g, ancestor, of, p),
        lineage(g, ancestor, of, q),
    ensures
        p == q,
{
    if p.len() < q.len() {
        lemma_lines_agree(g, p, q, p.len() - 1);
        assert(q[q.len() - p.len()] == q[0]);
    } else if q.len() < p.len() {
        lemma_lines_agree(g, p, q, q.len() - 1);
        assert(p[p.len() - q.len()] == p[0]);
    }
    assert forall|i: int| 0 <= i < p.len() implies p[i] == q[i] by {
        lemma_lines_agree(g, p, q, p.len() - 1 - i);
    }
    assert(p =~= q);
}

/// The line of descent between two slugs, if one is an ancestor of the other.
pub open spec fn line_between(g: Graph, ancestor: Text, of: Text) -> Option<Seq<Text>> {
    if exists|line: Seq<Text>| lineage(g, ancestor, of, line) {
        Some(choose|line: Seq<Text>| lineage(g, ancestor, of, line))
    } else {
        None
    }
}

/// The texts of a list, last first.
pub fn reversed(list: Vec<String>) -> (r: Vec<String>)
    ensures
        text::texts(r@) == text::texts(list@).reverse(),
{
    let mut out: Vec<String> = Vec::new();
    let mut left: usize = list.len();
    while left > 0
        invariant
            left <= list@.len(),
            out@.len() == list@.len() - left,
            forall|i: int|
                0 <= i < out@.len() ==> (#[trigger] out@[i])@ == list@[list@.len() - 1 - i]@,
        decreases left,
    {
        left = left - 1;
        out.push(list[left].clone());
    }
    assert(text::texts(out@) =~= text::texts(list@).reverse());
    out
}

/// A line that reaches further up than a line climbed so far continues it.
proof fn lemma_no_lineage(g: Graph, ancestor: Text, of: Text, climbed: Seq<Text>, p: Seq<Text>)
    requires
        lineage(g, ancestor, of, p),
        climbed.len() > 0,
        climbed.last() == of,
        descends(g, climbed),
        !climbed.contains(ancestor),
    ensures
        g.dom().contains(climbed[0]),
        g[climbed[0]].parent is Some,
        !climbed.contains(g[climbed[0]].parent->0),
{
    let n = climbed.len() as int;
    let m = p.len() as int;
    if m <= n {
        lemma_lines_agree(g, p, climbed, m - 1);
        assert(climbed[n - m] == ancestor);
    }
    lemma_lines_agree(g, p, climbed, n - 1);
    assert(p[m - n] == climbed[0]);
    let up = p[m - n - 1];
    assert(g[p[m - n]].parent == Some(up));
    if climbed.contains(up) {
        let i = choose|i: int| 0 <= i < n && climbed[i] == up;
        lemma_lines_agree(g, p, climbed, n - 1 - i);
        assert(p[m - 1 - (n - 1 - i)] == up);
        assert(p[m - n + i] == p[m - n - 1]);
    }
}

/// The chain from `ancestor` down to `of`, inclusive, if `ancestor` is on the
/// ancestry of `of`, as it is when they are the same head.
pub fn ancestry_from(tree: &Tree, ancestor: &str, of: &str) -> (r: Option<Vec<String>>)
    ensures
        match r {
            Some(line) => lineage(tree@.heads, ancestor@, of@, text::texts(line@)),
            None => forall|line: Seq<Text>| !lineage(tree@.heads, ancestor@, of@, line),
        },
        path_view(r) == line_between(tree@.heads, ancestor@, of@),
{
    proof {
        use_type_invariant(&tree.heads);
        crate::heads::lemma_zipped(tree.heads.keys(), tree.heads.values());
    }
    let ghost g = tree@.heads;
    // Climbed from `of` upwards, so `line` is the lineage back to front.
    let mut line: Vec<String> = Vec::new();
    let mut at = text::owned(of);
    let ghost mut climbed: Seq<Text> = Seq::empty();
    loop
        invariant
            g == tree@.heads,
            g.dom().finite(),
            text::texts(line@).reverse() == climbed,
            climbed.no_duplicates(),
            !climbed.contains(ancestor@),
            descends(g, climbed),
            climbed.len() == 0 ==> at@ == of@,
            climbed.len() > 0 ==> climbed.last() == of@ && g.dom().contains(climbed[0])
                && g[climbed[0]].parent == Some(at@),
            forall|i: int| 0 <= i < climbed.len() ==> g.dom().contains(#[trigger] climbed[i]),
        decreases g.dom().len() - climbed.len(),
    {
        proof {
            lemma_reverse_contains(text::texts(line@), at@);
        }
        if text::listed(&line, at.as_str()) {
            proof {
                assert forall|p: Seq<Text>| !lineage(g, ancestor@, of@, p) by {
                    if lineage(g, ancestor@, of@, p) {
                        lemma_no_lineage(g, ancestor@, of@, climbed, p);
                    }
                }
            }
            return None;
        }
        let ghost longer = seq![at@] + climbed;
        proof {
            assert(text::texts(line@.push(at)) =~= text::texts(line@).push(at@));
            assert(text::texts(line@.push(at)).reverse() =~= longer);
            assert forall|i: int|
                #![trigger longer[i]]
                0 < i < longer.len() implies g.dom().contains(longer[i]) && g[longer[i]].parent
                == Some(longer[i - 1]) by {
                assert(longer[i] == climbed[i - 1]);
                if i > 1 {
                    assert(longer[i - 1] == climbed[i - 2]);
                }
            }
            assert forall|i: int, j: int|
                0 <= i < longer.len() && 0 <= j < longer.len() && i != j implies longer[i]
                != longer[j] by {
                if i > 0 {
                    assert(longer[i] == climbed[i - 1]);
                    assert(climbed.contains(longer[i]));
                }
                if j > 0 {
                    assert(longer[j] == climbed[j - 1]);
                    assert(climbed.contains(longer[j]));
                }
            }
            assert(longer.last() == of@);
        }
        line.push(at.clone());
        if text::same(at.as_str(), ancestor) {
            proof {
                assert(lineage(g, ancestor@, of@, longer));
                let one = choose|p: Seq<Text>| lineage(g, ancestor@, of@, p);
                lineage_is_unique(g, ancestor@, of@, one, longer);
            }
            return Some(reversed(line));
        }
        proof {
            if longer.contains(ancestor@) {
                let i = choose|i: int| 0 <= i < longer.len() && longer[i] == ancestor@;
                assert(climbed[i - 1] == ancestor@);
            }
        }
        let up = match tree.heads.get(at.as_str()) {
            Some(head) => text::clone_option(&head.parent),
            None => None,
        };
        proof {
            climbed = longer;
        }
        match up {
            Some(parent) => {
                at = parent;
                proof {
                    assert(climbed.to_set().subset_of(g.dom()));
                    climbed.unique_seq_to_set();
                    vstd::set_lib::lemma_len_subset(climbed.to_set(), g.dom());
                }
            },
            None => {
                proof {
                    assert forall|p: Seq<Text>| !lineage(g, ancestor@, of@, p) by {
                        if lineage(g, ancestor@, of@, p) {
                            lemma_no_lineage(g, ancestor@, of@, climbed, p);
                        }
                    }
                }
                return None;
            },
        }
    }
}

pub proof fn lemma_reverse_contains(list: Seq<Text>, x: Text)
    ensures
        list.reverse().contains(x) == list.contains(x),
{
    if list.contains(x) {
        let i = choose|i: int| 0 <= i < list.len() && list[i] == x;
        assert(list.reverse()[list.len() - 1 - i] == x);
    }
    if list.reverse().contains(x) {
        let i = choose|i: int| 0 <= i < list.len() && list.reverse()[i] == x;
        assert(list[list.len() - 1 - i] == x);
    }
}

/// The ancestry of `slug`, root first and without `slug`: every ancestor is
/// there, and the line goes up as far as it can, which is to a head without a
/// parent, with a parent that does not exist, or with one that is in the line
/// already.
pub open spec fn is_ancestry(g: Graph, slug: Text, line: Seq<Text>) -> bool {
    let whole = line.push(slug);
    &&& whole.no_duplicates()
    &&& descends(g, whole)
    &&& forall|i: int| 0 <= i < line.len() ==> g.dom().contains(#[trigger] line[i])
    &&& match (if g.dom().contains(whole[0]) {
        g[whole[0]].parent
    } else {
        None
    }) {
        Some(up) => !g.dom().contains(up) || whole.contains(up),
        None => true,
    }
}

proof fn lemma_longer_ancestry(g: Graph, slug: Text, p: Seq<Text>, q: Seq<Text>)
    requires
        is_ancestry(g, slug, p),
        is_ancestry(g, slug, q),
    ensures
        p.len() >= q.len(),
{
    let a = p.push(slug);
    let b = q.push(slug);
    if p.len() < q.len() {
        let n = a.len() as int;
        lemma_lines_agree(g, a, b, n - 1);
        assert(a[0] == b[b.len() - n]);
        let up = b[b.len() - n - 1];
        assert(g[b[b.len() - n]].parent == Some(up));
        assert(up == q[b.len() - n - 1]);
        assert(a.contains(up));
        let i = choose|i: int| 0 <= i < n && a[i] == up;
        lemma_lines_agree(g, a, b, n - 1 - i);
        assert(b[b.len() - 1 - (n - 1 - i)] == up);
    }
}

/// A slug has one ancestry.
pub proof fn ancestry_is_unique(g: Graph, slug: Text, p: Seq<Text>, q: Seq<Text>)
    requires
        is_ancestry(g, slug, p),
        is_ancestry(g, slug, q),
    ensures
        p == q,
{
    lemma_longer_ancestry(g, slug, p, q);
    lemma_longer_ancestry(g, slug, q, p);
    let a = p.push(slug);
    let b = q.push(slug);
    assert forall|i: int| 0 <= i < p.len() implies p[i] == q[i] by {
        lemma_lines_agree(g, a, b, p.len() - i);
        assert(a[i] == p[i]);
        assert(b[i] == q[i]);
    }
    assert(p =~= q);
}

/// The ancestry of a slug.
pub open spec fn ancestry(g: Graph, slug: Text) -> Seq<Text> {
    choose|line: Seq<Text>| is_ancestry(g, slug, line)
}

pub proof fn ancestry_is(g: Graph, slug: Text, line: Seq<Text>)
    requires
        is_ancestry(g, slug, line),
    ensures
        ancestry(g, slug) == line,
{
    ancestry_is_unique(g, slug, ancestry(g, slug), line);
}

/// The line of ancestors can be drawn up to where it ends.
proof fn lemma_line_ends(g: Graph, slug: Text, line: Seq<Text>)
    requires
        g.dom().finite(),
        line.push(slug).no_duplicates(),
        descends(g, line.push(slug)),
        forall|i: int| 0 <= i < line.len() ==> g.dom().contains(#[trigger] line[i]),
    ensures
        exists|whole: Seq<Text>| is_ancestry(g, slug, whole),
    decreases g.dom().len() - line.len(),
{
    let whole = line.push(slug);
    if is_ancestry(g, slug, line) {
    } else {
        let up = g[whole[0]].parent->0;
        let longer = seq![up] + line;
        let next = longer.push(slug);
        assert(next =~= seq![up] + whole);
        assert forall|i: int, j: int|
            0 <= i < next.len() && 0 <= j < next.len() && i != j implies next[i] != next[j] by {
            if i > 0 {
                assert(next[i] == whole[i - 1]);
                assert(whole.contains(next[i]));
            }
            if j > 0 {
                assert(next[j] == whole[j - 1]);
                assert(whole.contains(next[j]));
            }
        }
        assert forall|i: int|
            #![trigger next[i]]
            0 < i < next.len() implies g.dom().contains(next[i]) && g[next[i]].parent == Some(
            next[i - 1],
        ) by {
            assert(next[i] == whole[i - 1]);
            if i > 1 {
                assert(next[i - 1] == whole[i - 2]);
            }
        }
        assert forall|i: int| 0 <= i < longer.len() implies g.dom().contains(
            #[trigger] longer[i],
        ) by {
            if i > 0 {
                assert(longer[i] == line[i - 1]);
            }
        }
        assert(longer.no_duplicates()) by {
            assert forall|i: int, j: int|
                0 <= i < longer.len() && 0 <= j < longer.len() && i != j implies longer[i]
                != longer[j] by {
                assert(longer[i] == next[i]);
                assert(longer[j] == next[j]);
            }
        }
        longer.unique_seq_to_set();
        vstd::set_lib::lemma_len_subset(longer.to_set(), g.dom());
        lemma_line_ends(g, slug, longer);
    }
}

/// In a finite tree every slug has an ancestry.
pub proof fn ancestry_exists(g: Graph, slug: Text)
    requires
        g.dom().finite(),
    ensures
        is_ancestry(g, slug, ancestry(g, slug)),
{
    let none = Seq::<Text>::empty();
    assert(none.push(slug) =~= seq![slug]);
    lemma_line_ends(g, slug, none);
}

} // verus!

//! The cascade: reopening everything that stands on an answer that moved.

use vstd::prelude::*;

use crate::model::{Graph, Head, Status, Tree};
use crate::order;
use crate::text::{self, Text};
use crate::walk;

verus! {

/// `slug` stands directly on `at`: it is a child of it or blocked by it.
pub open spec fn depends(g: Graph, slug: Text, at: Text) -> bool {
    &&& g.dom().contains(slug)
    &&& g[slug].parent == Some(at) || g[slug].blocked_by.contains(at)
}

pub open spec fn dependents_of(g: Graph, at: Text) -> Set<Text> {
    Set::new(|slug: Text| depends(g, slug, at))
}

/// Every answered head, other than `root`, that stands on `root` by any chain of
/// parents and blockers.
pub open spec fn stale(g: Graph, root: Text) -> Set<Text> {
    Set::new(
        |slug: Text|
            {
                &&& g.dom().contains(slug)
                &&& slug != root
                &&& g[slug].status == Status::Answered
                &&& walk::stands_on(g, true, slug, root)
            },
    )
}

/// `h` is `g` with the heads of `set` reopened and everything else as it was.
pub open spec fn reopens(g: Graph, h: Graph, set: Set<Text>) -> bool {
    &&& h.dom() == g.dom()
    &&& forall|slug: Text| #[trigger]
        g.dom().contains(slug) ==> if set.contains(slug) {
            g[slug].reopened().now_is(h[slug])
        } else {
            h[slug] == g[slug]
        }
}

pub proof fn lemma_depends(g: Graph, slug: Text, at: Text)
    ensures
        depends(g, slug, at) == walk::premises(g, true, slug).contains(at),
{
    if g.dom().contains(slug) {
        let edges = walk::premises(g, true, slug);
        let blockers = g[slug].blocked_by;
        if blockers.contains(at) {
            let i = choose|i: int| 0 <= i < blockers.len() && blockers[i] == at;
            assert(edges[i] == at);
        }
        if g[slug].parent == Some(at) {
            assert(edges[blockers.len() as int] == at);
        }
        if edges.contains(at) {
            let i = choose|i: int| 0 <= i < edges.len() && edges[i] == at;
            if i < blockers.len() {
                assert(blockers[i] == at);
            }
        }
    }
}

/// A premise of what stands on `root` hands it on.
pub proof fn lemma_stands_one_further(g: Graph, slug: Text, at: Text, root: Text)
    requires
        depends(g, slug, at),
        walk::stands_on(g, true, at, root),
    ensures
        walk::stands_on(g, true, slug, root),
{
    let path = choose|path: Seq<Text>| walk::connects(g, true, at, root, path);
    let longer = seq![slug] + path;
    lemma_depends(g, slug, at);
    assert forall|i: int| 0 <= i < longer.len() - 1 implies walk::premises(
        g,
        true,
        #[trigger] longer[i],
    ).contains(longer[i + 1]) by {
        if i > 0 {
            assert(longer[i] == path[i - 1]);
            assert(longer[i + 1] == path[i - 1 + 1]);
        }
    }
    assert(longer.last() == root);
    assert(walk::connects(g, true, slug, root, longer));
}

pub proof fn lemma_stands_on_itself(g: Graph, root: Text)
    ensures
        walk::stands_on(g, true, root, root),
{
    assert(walk::connects(g, true, root, root, seq![root]));
}

/// A set that holds `root` and the dependents of whatever it holds contains
/// everything that stands on `root`.
proof fn lemma_closed_under_dependents(g: Graph, root: Text, set: Set<Text>, path: Seq<Text>, k: int)
    requires
        set.contains(root),
        forall|slug: Text, at: Text| #[trigger]
            depends(g, slug, at) && set.contains(at) ==> set.contains(slug),
        path.len() > 0,
        path.last() == root,
        walk::follows(g, true, path),
        0 <= k < path.len(),
    ensures
        set.contains(path[k]),
    decreases path.len() - k,
{
    if k < path.len() - 1 {
        lemma_closed_under_dependents(g, root, set, path, k + 1);
        lemma_depends(g, path[k], path[k + 1]);
        assert(walk::premises(g, true, path[k]).contains(path[k + 1]));
    }
}

fn stands_directly(head: &Head, at: &str) -> (r: bool)
    ensures
        r == (head@.parent == Some(at@) || head@.blocked_by.contains(at@)),
{
    text::same_option(&head.parent, Some(at)) || text::listed(&head.blocked_by, at)
}

/// The heads that stand directly on `slug`, in the order of slugs.
pub fn dependents(tree: &Tree, slug: &str) -> (r: Vec<String>)
    ensures
        text::texts(r@) == order::in_order(dependents_of(tree@.heads, slug@)),
        forall|x: Text|
            #[trigger] text::texts(r@).contains(x) <==> dependents_of(tree@.heads, slug@).contains(
                x,
            ),
{
    proof {
        use_type_invariant(&tree.heads);
        crate::heads::lemma_zipped(tree.heads.keys(), tree.heads.values());
        order::by_text_is_strict();
    }
    let ghost g = tree@.heads;
    let ghost keys = tree.heads.keys();
    let ghost lt = order::by_text();
    let mut out: Vec<String> = Vec::new();
    assert(text::texts(out@) =~= Seq::<Text>::empty());
    let count = tree.heads.len();
    for i in 0..count
        invariant
            g == tree@.heads,
            keys == tree.heads.keys(),
            lt == order::by_text(),
            count == keys.len(),
            order::ascends(keys, lt),
            g.dom() == keys.to_set(),
            order::ascends(text::texts(out@), lt),
            forall|x: Text| #[trigger]
                text::texts(out@).contains(x) <==> keys.take(i as int).contains(x) && depends(
                    g,
                    x,
                    slug@,
                ),
    {
        let ghost so_far = text::texts(out@);
        let key = tree.heads.key_at(i);
        let head = tree.heads.value_at(i);
        if stands_directly(head, slug) {
            proof {
                assert(text::texts(out@.push(*key)) =~= so_far.push(key@));
                assert forall|a: int, b: int|
                    0 <= a < b < so_far.push(key@).len() implies lt(
                    #[trigger] so_far.push(key@)[a],
                    #[trigger] so_far.push(key@)[b],
                ) by {
                    if b == so_far.len() {
                        assert(so_far.contains(so_far[a]));
                        let j = choose|j: int|
                            0 <= j < keys.take(i as int).len() && keys.take(i as int)[j]
                                == so_far[a];
                        assert(lt(keys[j], keys[i as int]));
                    }
                }
            }
            out.push(key.clone());
        }
        proof {
            let now = text::texts(out@);
            assert forall|x: Text| #[trigger]
                now.contains(x) <==> keys.take(i + 1).contains(x) && depends(g, x, slug@) by {
                lemma_contains_push(so_far, key@, x);
                assert(keys.take(i + 1) =~= keys.take(i as int).push(keys[i as int]));
                lemma_contains_push(keys.take(i as int), keys[i as int], x);
            }
        }
    }
    proof {
        assert(keys.take(count as int) =~= keys);
        order::arranged_is(text::texts(out@), dependents_of(g, slug@), lt);
    }
    out
}

pub proof fn lemma_contains_push(list: Seq<Text>, last: Text, x: Text)
    ensures
        list.push(last).contains(x) == (list.contains(x) || x == last),
{
    let longer = list.push(last);
    if list.contains(x) {
        let i = choose|i: int| 0 <= i < list.len() && list[i] == x;
        assert(longer[i] == x);
    }
    if x == last {
        assert(longer[list.len() as int] == x);
    }
    if longer.contains(x) {
        let i = choose|i: int| 0 <= i < longer.len() && longer[i] == x;
        if i < list.len() {
            assert(list[i] == x);
        }
    }
}

/// What has been reached so far has been reopened, and nothing else has changed.
spec fn reopened_so_far(g: Graph, h: Graph, root: Text, reached: Seq<Text>) -> bool {
    &&& h.dom() == g.dom()
    &&& forall|slug: Text| #[trigger]
        g.dom().contains(slug) ==> if reached.contains(slug) && slug != root && g[slug].status
            == Status::Answered {
            g[slug].reopened().now_is(h[slug])
        } else {
            h[slug] == g[slug]
        }
}

/// The answered heads among those reached.
spec fn answered_among(g: Graph, root: Text, reached: Seq<Text>) -> Set<Text> {
    Set::new(
        |slug: Text|
            {
                &&& g.dom().contains(slug)
                &&& slug != root
                &&& g[slug].status == Status::Answered
                &&& reached.contains(slug)
            },
    )
}

proof fn lemma_same_edges(g: Graph, h: Graph, root: Text, reached: Seq<Text>)
    requires
        reopened_so_far(g, h, root, reached),
    ensures
        forall|slug: Text, at: Text| depends(h, slug, at) == #[trigger] depends(g, slug, at),
{
    assert forall|slug: Text, at: Text| depends(h, slug, at) == #[trigger] depends(g, slug, at) by {
        if g.dom().contains(slug) {
            assert(h[slug].parent == g[slug].parent);
            assert(h[slug].blocked_by == g[slug].blocked_by);
        }
    }
}

/// Reopens, transitively, everything that stands on `root`, and reports the
/// heads that were answered, sorted.
///
/// One walk over both kinds of edge. A head that is open already is walked
/// through without being reported, and `root` itself is never reopened, so the
/// walk also ends on a cycle.
pub fn cascade(tree: &mut Tree, root: &str) -> (r: Vec<String>)
    ensures
        reopens(old(tree)@.heads, final(tree)@.heads, stale(old(tree)@.heads, root@)),
        final(tree)@ == old(tree)@.with_heads(final(tree)@.heads),
        text::texts(r@) == order::in_order(stale(old(tree)@.heads, root@)),
{
    let ghost g = tree@.heads;
    let ghost start = tree@;
    let ghost top = root@;
    proof {
        use_type_invariant(&tree.heads);
        crate::heads::lemma_zipped(tree.heads.keys(), tree.heads.values());
    }
    let mut reached: Vec<String> = Vec::new();
    reached.push(text::owned(root));
    let mut reopened: Vec<String> = Vec::new();
    proof {
        assert(text::texts(reached@) =~= seq![top]);
        assert(text::texts(reached@)[0] == top);
        assert(text::texts(reopened@) =~= Seq::<Text>::empty());
        lemma_stands_on_itself(g, top);
        assert(answered_among(g, top, text::texts(reached@)) =~= Set::<Text>::empty());
        assert(text::texts(reopened@).to_set() =~= Set::<Text>::empty());
        order::by_text_is_strict();
        order::arranged_is(Seq::empty(), Set::<Text>::empty(), order::by_text());
    }
    let mut next: usize = 0;
    while next < reached.len()
        invariant
            g == start.heads,
            top == root@,
            g.dom().finite(),
            tree@ == start.with_heads(tree@.heads),
            next <= reached@.len(),
            text::texts(reached@).len() == reached@.len(),
            text::texts(reached@).no_duplicates(),
            text::texts(reached@).contains(top),
            forall|x: Text| #[trigger]
                text::texts(reached@).contains(x) ==> x == top || g.dom().contains(x),
            forall|x: Text| #[trigger]
                text::texts(reached@).contains(x) ==> walk::stands_on(g, true, x, top),
            forall|j: int, slug: Text|
                0 <= j < next && #[trigger] depends(g, slug, text::texts(reached@)[j])
                    ==> text::texts(reached@).contains(slug),
            reopened_so_far(g, tree@.heads, top, text::texts(reached@)),
            order::ascends(text::texts(reopened@), order::by_text()),
            text::texts(reopened@).to_set() == answered_among(g, top, text::texts(reached@)),
            text::texts(reopened@) == order::in_order(
                answered_among(g, top, text::texts(reached@)),
            ),
        decreases g.dom().len() + 1 - next,
    {
        let ghost at = text::texts(reached@)[next as int];
        assert(at == reached@[next as int]@);
        proof {
            let all = text::texts(reached@);
            assert(all.contains(all[next as int]));
            lemma_same_edges(g, tree@.heads, top, all);
            all.unique_seq_to_set();
            assert(all.to_set().subset_of(g.dom().insert(top)));
            vstd::set_lib::lemma_len_subset(all.to_set(), g.dom().insert(top));
        }
        let found = dependents(tree, reached[next].as_str());
        let ghost fresh = text::texts(found@);
        assert forall|x: Text| #[trigger] fresh.contains(x) <==> depends(g, x, at) by {
            assert(dependents_of(tree@.heads, at).contains(x) == depends(tree@.heads, x, at));
        }
        let ghost settled = next as int;
        let ghost before = text::texts(reached@);
        for i in 0..found.len()
            invariant
                g == start.heads,
                top == root@,
                g.dom().finite(),
                fresh == text::texts(found@),
                forall|x: Text| #[trigger] fresh.contains(x) <==> depends(g, x, at),
                walk::stands_on(g, true, at, top),
                tree@ == start.with_heads(tree@.heads),
                0 <= settled < before.len(),
                before.len() <= text::texts(reached@).len(),
                text::texts(reached@).take(before.len() as int) == before,
                at == before[settled],
                text::texts(reached@).len() == reached@.len(),
                text::texts(reached@).no_duplicates(),
                text::texts(reached@).contains(top),
                forall|x: Text| #[trigger]
                    text::texts(reached@).contains(x) ==> x == top || g.dom().contains(x),
                forall|x: Text| #[trigger]
                    text::texts(reached@).contains(x) ==> walk::stands_on(g, true, x, top),
                forall|x: Text| #[trigger]
                    before.contains(x) ==> text::texts(reached@).contains(x),
                forall|j: int|
                    0 <= j < i ==> text::texts(reached@).contains(#[trigger] fresh[j]),
                reopened_so_far(g, tree@.heads, top, text::texts(reached@)),
                order::ascends(text::texts(reopened@), order::by_text()),
                text::texts(reopened@).to_set() == answered_among(g, top, text::texts(reached@)),
                text::texts(reopened@) == order::in_order(
                    answered_among(g, top, text::texts(reached@)),
                ),
        {
            let ghost x = fresh[i as int];
            proof {
                assert(x == found@[i as int]@);
                assert(fresh.contains(x));
            }
            if !text::listed(&reached, found[i].as_str()) {
                let ghost earlier = text::texts(reached@);
                let ghost h = tree@.heads;
                proof {
                    lemma_stands_one_further(g, x, at, top);
                    assert(text::texts(reached@.push(found@[i as int])) =~= earlier.push(x));
                }
                let mut was_answered = false;
                match tree.heads.get_mut(found[i].as_str()) {
                    Some(head) => {
                        was_answered = head.reopen();
                    },
                    None => {},
                }
                if was_answered {
                    order::insert_in_order(&mut reopened, found[i].clone());
                }
                reached.push(found[i].clone());
                proof {
                    let now = text::texts(reached@);
                    assert(now =~= earlier.push(x));
                    assert forall|y: Text| #[trigger]
                        now.contains(y) == (earlier.contains(y) || y == x) by {
                        lemma_contains_push(earlier, x, y);
                    }
                    assert(g[x].status == h[x].status);
                    let want = answered_among(g, top, now);
                    if g[x].status == Status::Answered {
                        assert(want =~= answered_among(g, top, earlier).insert(x));
                    } else {
                        assert(want =~= answered_among(g, top, earlier));
                    }
                    assert(tree@.heads.dom() =~= g.dom());
                    assert(now.take(before.len() as int) =~= earlier.take(before.len() as int));
                }
            }
        }
        proof {
            let all = text::texts(reached@);
            assert forall|j: int, slug: Text|
                0 <= j < next + 1 && #[trigger] depends(
                    g,
                    slug,
                    all[j],
                ) implies all.contains(slug) by {
                assert(all[j] == all.take(before.len() as int)[j]);
                if j < next {
                    assert(depends(g, slug, before[j]));
                } else {
                    assert(fresh.contains(slug));
                    let k = choose|k: int| 0 <= k < fresh.len() && fresh[k] == slug;
                    assert(all.contains(fresh[k]));
                }
            }
        }
        next = next + 1;
    }
    proof {
        let all = text::texts(reached@);
        let set = all.to_set();
        assert forall|slug: Text, at: Text| #[trigger]
            depends(g, slug, at) && set.contains(at) implies set.contains(slug) by {
            let j = choose|j: int| 0 <= j < all.len() && all[j] == at;
            assert(depends(g, slug, all[j]));
        }
        assert forall|x: Text| walk::stands_on(g, true, x, top) implies all.contains(x) by {
            let path = choose|path: Seq<Text>| walk::connects(g, true, x, top, path);
            lemma_closed_under_dependents(g, top, set, path, 0);
        }
        assert(answered_among(g, top, all) =~= stale(g, top));
        assert forall|slug: Text| #[trigger]
            g.dom().contains(slug) implies if stale(g, top).contains(slug) {
            g[slug].reopened().now_is(tree@.heads[slug])
        } else {
            tree@.heads[slug] == g[slug]
        } by {}
    }
    reopened
}

} // verus!

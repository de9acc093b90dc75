//! How the reading of a tree follows its shape.
//!
//! Where the parents do not run in a circle, a tree is read root by root, each
//! head is followed by the blocks of its children, and a block is exactly the
//! head and what lies below it. A head whose parent does not exist is a root.

use vstd::prelude::*;

use crate::cascade;
use crate::model::Graph;
use crate::order;
use crate::preorder::{self, Stop};
use crate::sound;
use crate::text::Text;
use crate::walk;

verus! {

// ---------------------------------------------------------------------------
// Above and below
// ---------------------------------------------------------------------------

/// The head that the parents lead to in `n` steps.
pub open spec fn above(g: Graph, slug: Text, n: nat) -> Option<Text>
    decreases n,
{
    if n == 0 {
        Some(slug)
    } else {
        match above(g, slug, (n - 1) as nat) {
            Some(x) => preorder::read_under(g, x),
            None => None,
        }
    }
}

/// No head lies above itself.
pub open spec fn parents_do_not_cycle(g: Graph) -> bool {
    forall|slug: Text, n: nat|
        g.dom().contains(slug) && n > 0 ==> #[trigger] above(g, slug, n) != Some(slug)
}

/// `y` is `slug` or lies below it.
pub open spec fn lies_within(g: Graph, slug: Text, y: Text) -> bool {
    g.dom().contains(y) && exists|n: nat| #[trigger] above(g, y, n) == Some(slug)
}

proof fn lemma_above_is_there(g: Graph, slug: Text, n: nat)
    requires
        g.dom().contains(slug),
    ensures
        above(g, slug, n) matches Some(x) ==> g.dom().contains(x),
    decreases n,
{
    if n > 0 {
        lemma_above_is_there(g, slug, (n - 1) as nat);
    }
}

/// Steps up can be taken one after the other.
proof fn lemma_above_adds(g: Graph, slug: Text, m: nat, n: nat)
    requires
        above(g, slug, m) is Some,
    ensures
        above(g, slug, m + n) == above(g, above(g, slug, m)->0, n),
    decreases n,
{
    if n > 0 {
        lemma_above_adds(g, slug, m, (n - 1) as nat);
        assert((m + n - 1) as nat == m + (n - 1) as nat);
    }
}

/// What is reached is reached by way of every step before.
proof fn lemma_above_on_the_way(g: Graph, slug: Text, m: nat, n: nat)
    requires
        m <= n,
        above(g, slug, n) is Some,
    ensures
        above(g, slug, m) is Some,
    decreases n - m,
{
    if m < n {
        lemma_above_on_the_way(g, slug, m + 1, n);
        assert((m + 1 - 1) as nat == m);
    }
}

proof fn lemma_one_above(g: Graph, slug: Text)
    ensures
        above(g, slug, 1) == preorder::read_under(g, slug),
{
    assert(above(g, slug, 0) == Some(slug));
    assert((1nat - 1) as nat == 0nat);
}

/// What lies within a child lies within its parent.
proof fn lemma_within_parent(g: Graph, slug: Text, child: Text, y: Text)
    requires
        preorder::read_under(g, child) == Some(slug),
        lies_within(g, child, y),
    ensures
        lies_within(g, slug, y),
{
    let n = choose|n: nat| #[trigger] above(g, y, n) == Some(child);
    assert((n + 1 - 1) as nat == n);
    assert(above(g, y, n + 1) == Some(slug));
}

/// Nothing lies within two siblings.
proof fn lemma_siblings_are_apart(g: Graph, parent: Option<Text>, a: Text, b: Text, y: Text)
    requires
        parents_do_not_cycle(g),
        preorder::kids(g, parent).contains(a),
        preorder::kids(g, parent).contains(b),
        a != b,
    ensures
        !(lies_within(g, a, y) && lies_within(g, b, y)),
{
    if lies_within(g, a, y) && lies_within(g, b, y) {
        let n = choose|n: nat| #[trigger] above(g, y, n) == Some(a);
        let m = choose|m: nat| #[trigger] above(g, y, m) == Some(b);
        if n < m {
            lemma_sibling_is_not_above(g, parent, a, b, y, n, m);
        } else {
            lemma_sibling_is_not_above(g, parent, b, a, y, m, n);
        }
    }
}

proof fn lemma_sibling_is_not_above(
    g: Graph,
    parent: Option<Text>,
    a: Text,
    b: Text,
    y: Text,
    n: nat,
    m: nat,
)
    requires
        parents_do_not_cycle(g),
        preorder::kids(g, parent).contains(a),
        preorder::kids(g, parent).contains(b),
        a != b,
        n <= m,
        above(g, y, n) == Some(a),
    ensures
        above(g, y, m) != Some(b),
{
    if above(g, y, m) == Some(b) {
        let k = (m - n) as nat;
        lemma_above_adds(g, y, n, k);
        assert(above(g, a, k) == Some(b));
        assert(k > 0);
        lemma_above_on_the_way(g, a, 1, k);
        lemma_one_above(g, a);
        lemma_one_above(g, b);
        let p = parent->0;
        lemma_above_adds(g, a, 1, (k - 1) as nat);
        assert(above(g, p, (k - 1) as nat) == Some(b));
        lemma_above_adds(g, p, (k - 1) as nat, 1);
        assert((k - 1) as nat + 1 == k);
        assert(above(g, p, k) == Some(p));
    }
}

/// A head does not lie within its child.
proof fn lemma_not_within_child(g: Graph, slug: Text, child: Text)
    requires
        parents_do_not_cycle(g),
        g.dom().contains(slug),
        preorder::kids(g, Some(slug)).contains(child),
    ensures
        !lies_within(g, child, slug),
{
    if lies_within(g, child, slug) {
        let n = choose|n: nat| #[trigger] above(g, slug, n) == Some(child);
        assert((n + 1 - 1) as nat == n);
        assert(above(g, slug, n + 1) == Some(slug));
    }
}

/// The last head on the way up, before the parents end.
proof fn lemma_climb(g: Graph, slug: Text, n: nat) -> (k: nat)
    requires
        above(g, slug, n) is None,
    ensures
        k < n,
        above(g, slug, k) is Some,
        above(g, slug, k + 1) is None,
    decreases n,
{
    let m = (n - 1) as nat;
    if above(g, slug, m) is Some {
        assert(m + 1 == n);
        m
    } else {
        lemma_climb(g, slug, m)
    }
}

/// Where the parents do not run in a circle they end at a root.
proof fn lemma_root_above(g: Graph, slug: Text) -> (n: nat)
    requires
        g.dom().finite(),
        parents_do_not_cycle(g),
        g.dom().contains(slug),
    ensures
        above(g, slug, n) is Some,
        preorder::kids(g, None).contains(above(g, slug, n)->0),
{
    let size = g.dom().len();
    if above(g, slug, size) is Some {
        let path = Seq::new(size + 1, |k: int| above(g, slug, k as nat)->0);
        assert forall|k: int| 0 <= k < path.len() implies g.dom().contains(#[trigger] path[k]) by {
            lemma_above_on_the_way(g, slug, k as nat, size);
            lemma_above_is_there(g, slug, k as nat);
        }
        let (a, b) = sound::lemma_repeats(path, g.dom());
        lemma_above_on_the_way(g, slug, a as nat, size);
        lemma_above_on_the_way(g, slug, b as nat, size);
        lemma_above_adds(g, slug, a as nat, (b - a) as nat);
        assert(a as nat + (b - a) as nat == b as nat);
        assert(g.dom().contains(path[a]));
        assert(above(g, path[a], (b - a) as nat) == Some(path[b]));
        0
    } else {
        let k = lemma_climb(g, slug, size);
        lemma_above_is_there(g, slug, k);
        assert((k + 1 - 1) as nat == k);
        k
    }
}

/// The parents of a sound tree do not run in a circle.
pub proof fn parents_of_a_sound_tree_do_not_cycle(g: Graph)
    requires
        sound::acyclic(g),
    ensures
        parents_do_not_cycle(g),
{
    assert forall|slug: Text, n: nat|
        g.dom().contains(slug) && n > 0 implies #[trigger] above(g, slug, n) != Some(slug) by {
        if above(g, slug, n) == Some(slug) {
            let path = Seq::new(n + 1, |k: int| above(g, slug, k as nat)->0);
            assert forall|i: int| 0 <= i < path.len() - 1 implies walk::premises(
                g,
                true,
                #[trigger] path[i],
            ).contains(path[i + 1]) by {
                lemma_above_on_the_way(g, slug, i as nat, n);
                lemma_above_on_the_way(g, slug, (i + 1) as nat, n);
                lemma_above_is_there(g, slug, i as nat);
                assert(((i + 1) as nat - 1) as nat == i as nat);
                cascade::lemma_depends(g, path[i], path[i + 1]);
            }
            assert(walk::follows(g, true, path));
            assert(path[0] == slug && path.last() == slug);
        }
    }
}

// ---------------------------------------------------------------------------
// Blocks
// ---------------------------------------------------------------------------

/// What is read from one head alone.
pub open spec fn block(g: Graph, slug: Text, depth: nat) -> Seq<Stop> {
    preorder::walked(g, seq![(slug, depth)], Set::empty())
}

/// The blocks of several heads, one behind the other.
pub open spec fn blocks(g: Graph, list: Seq<Text>, depth: nat) -> Seq<Stop>
    decreases list.len(),
{
    if list.len() == 0 {
        Seq::empty()
    } else {
        blocks(g, list.drop_last(), depth) + block(g, list.last(), depth)
    }
}

/// `y` lies within one of the heads that are to be read.
spec fn lies_within_any(g: Graph, pending: Seq<Stop>, y: Text) -> bool {
    exists|i: int| 0 <= i < pending.len() && lies_within(g, (#[trigger] pending[i]).0, y)
}

/// What is read depends on what was seen only as far as it lies within the heads
/// that are to be read, and only such heads are read.
proof fn lemma_seen_elsewhere(g: Graph, pending: Seq<Stop>, seen: Set<Text>, other: Set<Text>)
    requires
        g.dom().finite(),
        forall|y: Text| #[trigger]
            lies_within_any(g, pending, y) ==> seen.contains(y) == other.contains(y),
    ensures
        preorder::walked(g, pending, seen) == preorder::walked(g, pending, other),
        forall|y: Text| #[trigger]
            preorder::reached(preorder::walked(g, pending, seen)).contains(y) ==> lies_within_any(
                g,
                pending,
                y,
            ),
    decreases g.dom().difference(seen).len(), pending.len(),
{
    if pending.len() == 0 {
        assert(preorder::slugs_of(preorder::walked(g, pending, seen)) =~= Seq::<Text>::empty());
    } else {
        let (slug, depth) = pending[0];
        let rest = pending.skip(1);
        assert forall|y: Text| #[trigger] lies_within_any(g, rest, y) implies lies_within_any(
            g,
            pending,
            y,
        ) by {
            let i = choose|i: int|
                0 <= i < rest.len() && lies_within(g, (#[trigger] rest[i]).0, y);
            assert(lies_within(g, pending[i + 1].0, y));
        }
        if g.dom().contains(slug) {
            assert(above(g, slug, 0) == Some(slug));
            assert(lies_within(g, pending[0].0, slug));
            assert(lies_within_any(g, pending, slug));
        }
        if seen.contains(slug) || !g.dom().contains(slug) {
            lemma_seen_elsewhere(g, rest, seen, other);
        } else {
            preorder::lemma_fewer_left(g, seen, slug);
            let list = preorder::children(g, Some(slug));
            let more = preorder::at_depth(list, depth + 1);
            let next = more + rest;
            preorder::children_are_kids(g, Some(slug));
            assert forall|y: Text| #[trigger] lies_within_any(g, next, y) implies lies_within_any(
                g,
                pending,
                y,
            ) by {
                let i = choose|i: int|
                    0 <= i < next.len() && lies_within(g, (#[trigger] next[i]).0, y);
                if i < more.len() {
                    assert(next[i].0 == list[i]);
                    assert(list.contains(list[i]));
                    assert(preorder::kids(g, Some(slug)).contains(list[i]));
                    lemma_within_parent(g, slug, list[i], y);
                    assert(lies_within(g, pending[0].0, y));
                } else {
                    assert(next[i] == rest[i - more.len()]);
                    assert(lies_within_any(g, rest, y));
                }
            }
            lemma_seen_elsewhere(g, next, seen.insert(slug), other.insert(slug));
            preorder::lemma_reached_first(
                pending[0],
                preorder::walked(g, next, seen.insert(slug)),
            );
        }
    }
}

/// Heads that have nothing in common are read block by block.
proof fn lemma_blocks(g: Graph, list: Seq<Text>, depth: nat, seen: Set<Text>)
    requires
        g.dom().finite(),
        forall|i: int, j: int, y: Text|
            0 <= i < j < list.len() ==> !(#[trigger] lies_within(g, list[i], y)
                && #[trigger] lies_within(g, list[j], y)),
        forall|i: int, y: Text|
            0 <= i < list.len() && #[trigger] lies_within(g, list[i], y) ==> !seen.contains(y),
    ensures
        preorder::walked(g, preorder::at_depth(list, depth), seen) == blocks(g, list, depth),
    decreases list.len(),
{
    let pending = preorder::at_depth(list, depth);
    if list.len() > 0 {
        let front = list.drop_last();
        let last = seq![(list.last(), depth)];
        let ahead = preorder::at_depth(front, depth);
        assert(pending =~= ahead + last);
        preorder::reading_splits(g, ahead, last, seen);
        assert forall|i: int, y: Text|
            0 <= i < front.len() && #[trigger] lies_within(
                g,
                front[i],
                y,
            ) implies !seen.contains(y) by {
            assert(lies_within(g, list[i], y));
        }
        assert forall|i: int, j: int, y: Text| 0 <= i < j < front.len() implies !(
        #[trigger] lies_within(g, front[i], y) && #[trigger] lies_within(g, front[j], y)) by {
            assert(front[i] == list[i] && front[j] == list[j]);
            assert(!(lies_within(g, list[i], y) && lies_within(g, list[j], y)));
        }
        lemma_blocks(g, front, depth, seen);
        lemma_seen_elsewhere(g, ahead, seen, seen);
        let been = seen.union(preorder::reached(preorder::walked(g, ahead, seen)));
        assert forall|y: Text| #[trigger] lies_within_any(g, last, y) implies been.contains(y)
            == Set::<Text>::empty().contains(y) by {
            let k = choose|k: int|
                0 <= k < last.len() && lies_within(g, (#[trigger] last[k]).0, y);
            let n = list.len() - 1;
            assert(lies_within(g, list[n], y));
            if preorder::reached(preorder::walked(g, ahead, seen)).contains(y) {
                assert(lies_within_any(g, ahead, y));
                let i = choose|i: int|
                    0 <= i < ahead.len() && lies_within(g, (#[trigger] ahead[i]).0, y);
                assert(ahead[i].0 == list[i]);
                assert(!(lies_within(g, list[i], y) && lies_within(g, list[n], y)));
            }
        }
        lemma_seen_elsewhere(g, last, been, Set::empty());
    } else {
        assert(pending =~= Seq::<Stop>::empty());
    }
}

/// The children of one parent are read block by block.
proof fn lemma_children_blocks(g: Graph, parent: Option<Text>, depth: nat, seen: Set<Text>)
    requires
        g.dom().finite(),
        parents_do_not_cycle(g),
        forall|kid: Text, y: Text|
            preorder::kids(g, parent).contains(kid) && #[trigger] lies_within(g, kid, y)
                ==> !seen.contains(y),
    ensures
        preorder::walked(g, preorder::at_depth(preorder::children(g, parent), depth), seen)
            == blocks(g, preorder::children(g, parent), depth),
{
    let list = preorder::children(g, parent);
    preorder::children_are_kids(g, parent);
    preorder::by_seat_is_strict(g);
    order::arranged_has_no_duplicates(list, preorder::by_seat(g));
    assert forall|i: int| 0 <= i < list.len() implies preorder::kids(g, parent).contains(
        #[trigger] list[i],
    ) by {
        assert(list.contains(list[i]));
    }
    assert forall|i: int, j: int, y: Text| 0 <= i < j < list.len() implies !(
    #[trigger] lies_within(g, list[i], y) && #[trigger] lies_within(g, list[j], y)) by {
        lemma_siblings_are_apart(g, parent, list[i], list[j], y);
    }
    lemma_blocks(g, list, depth, seen);
}

/// A head is read right before the blocks of its children, which come in order and
/// lie one deeper.
pub proof fn children_are_read_block_by_block(g: Graph, slug: Text, depth: nat)
    requires
        g.dom().finite(),
        parents_do_not_cycle(g),
        g.dom().contains(slug),
    ensures
        block(g, slug, depth) == seq![(slug, depth)] + blocks(
            g,
            preorder::children(g, Some(slug)),
            depth + 1,
        ),
{
    let one = seq![(slug, depth)];
    let none = Set::<Text>::empty();
    let more = preorder::at_depth(preorder::children(g, Some(slug)), depth + 1);
    assert(one.skip(1) =~= Seq::<Stop>::empty());
    assert(more + one.skip(1) =~= more);
    preorder::lemma_fewer_left(g, none, slug);
    assert forall|kid: Text, y: Text|
        preorder::kids(g, Some(slug)).contains(kid) && #[trigger] lies_within(
            g,
            kid,
            y,
        ) implies !none.insert(slug).contains(y) by {
        lemma_not_within_child(g, slug, kid);
    }
    lemma_children_blocks(g, Some(slug), depth + 1, none.insert(slug));
}

/// The blocks of the first heads of a list are the first of its blocks.
proof fn lemma_blocks_begin(g: Graph, list: Seq<Text>, depth: nat, i: int)
    requires
        0 <= i <= list.len(),
    ensures
        blocks(g, list.take(i), depth).len() <= blocks(g, list, depth).len(),
        blocks(g, list, depth).take(blocks(g, list.take(i), depth).len() as int) == blocks(
            g,
            list.take(i),
            depth,
        ),
    decreases list.len(),
{
    if i == list.len() {
        assert(list.take(i) =~= list);
    } else {
        let front = list.drop_last();
        lemma_blocks_begin(g, front, depth, i);
        assert(front.take(i) =~= list.take(i));
        let n = blocks(g, list.take(i), depth).len() as int;
        assert(blocks(g, list, depth).take(n) =~= blocks(g, front, depth).take(n));
    }
}

/// Where the block of the `i`th head of a list begins.
pub open spec fn start_of(g: Graph, list: Seq<Text>, depth: nat, i: int) -> int {
    blocks(g, list.take(i), depth).len() as int
}

/// `part` stands in `stops` at `from`.
pub open spec fn stands_at(stops: Seq<Stop>, part: Seq<Stop>, from: int) -> bool {
    0 <= from <= stops.len() - part.len() && stops.subrange(from, from + part.len()) == part
}

proof fn lemma_block_stands(g: Graph, list: Seq<Text>, depth: nat, i: int)
    requires
        0 <= i < list.len(),
    ensures
        stands_at(blocks(g, list, depth), block(g, list[i], depth), start_of(g, list, depth, i)),
        start_of(g, list, depth, i) + block(g, list[i], depth).len() == start_of(
            g,
            list,
            depth,
            i + 1,
        ),
{
    let all = blocks(g, list, depth);
    let from = start_of(g, list, depth, i);
    let part = block(g, list[i], depth);
    let upto = list.take(i + 1);
    assert(upto.drop_last() =~= list.take(i));
    assert(upto.last() == list[i]);
    lemma_blocks_begin(g, list, depth, i + 1);
    let begin = blocks(g, upto, depth);
    assert(begin == blocks(g, list.take(i), depth) + part);
    assert(begin.subrange(from, from + part.len()) =~= part);
    assert(all.subrange(from, from + part.len()) =~= all.take(begin.len() as int).subrange(
        from,
        from + part.len(),
    ));
}

proof fn lemma_later_block_starts_later(g: Graph, list: Seq<Text>, depth: nat, i: int, j: int)
    requires
        0 <= i < j < list.len(),
    ensures
        start_of(g, list, depth, i) + block(g, list[i], depth).len() <= start_of(
            g,
            list,
            depth,
            j,
        ),
    decreases j - i,
{
    lemma_block_stands(g, list, depth, i);
    if i + 1 < j {
        lemma_later_block_starts_later(g, list, depth, i + 1, j);
    }
}

proof fn lemma_stands_within(
    stops: Seq<Stop>,
    whole: Seq<Stop>,
    from: int,
    part: Seq<Stop>,
    at: int,
)
    requires
        stands_at(stops, whole, from),
        stands_at(whole, part, at),
    ensures
        stands_at(stops, part, from + at),
{
    assert(stops.subrange(from + at, from + at + part.len()) =~= part) by {
        assert forall|k: int| 0 <= k < part.len() implies stops[from + at + k] == part[k] by {
            assert(whole.subrange(at, at + part.len())[k] == whole[at + k]);
            assert(stops.subrange(from, from + whole.len())[at + k] == stops[from + at + k]);
        }
    }
}

proof fn lemma_reached_in(stops: Seq<Stop>, part: Seq<Stop>, from: int, y: Text)
    requires
        stands_at(stops, part, from),
        preorder::reached(part).contains(y),
    ensures
        preorder::reached(stops).contains(y),
{
    let i = choose|i: int| 0 <= i < part.len() && preorder::slugs_of(part)[i] == y;
    assert(stops.subrange(from, from + part.len())[i] == stops[from + i]);
    assert(preorder::slugs_of(stops)[from + i] == y);
}

/// A head and what lies below it are read in its block.
proof fn lemma_within_is_read(g: Graph, slug: Text, y: Text, n: nat, depth: nat)
    requires
        g.dom().finite(),
        parents_do_not_cycle(g),
        g.dom().contains(y),
        above(g, y, n) == Some(slug),
    ensures
        preorder::reached(block(g, slug, depth)).contains(y),
    decreases n,
{
    lemma_above_is_there(g, y, n);
    children_are_read_block_by_block(g, slug, depth);
    let list = preorder::children(g, Some(slug));
    let below = blocks(g, list, depth + 1);
    preorder::lemma_reached_first((slug, depth), below);
    if n > 0 {
        let m = (n - 1) as nat;
        let kid = above(g, y, m)->0;
        lemma_above_is_there(g, y, m);
        lemma_within_is_read(g, kid, y, m, depth + 1);
        preorder::children_are_kids(g, Some(slug));
        assert(preorder::kids(g, Some(slug)).contains(kid));
        assert(list.contains(kid));
        let i = choose|i: int| 0 <= i < list.len() && list[i] == kid;
        lemma_block_stands(g, list, depth + 1, i);
        lemma_reached_in(
            below,
            block(g, kid, depth + 1),
            start_of(g, list, depth + 1, i),
            y,
        );
    }
}

/// The block of a head holds the head and what lies below it, and nothing else.
pub proof fn block_is_the_subtree(g: Graph, slug: Text, depth: nat, y: Text)
    requires
        g.dom().finite(),
        parents_do_not_cycle(g),
    ensures
        preorder::reached(block(g, slug, depth)).contains(y) <==> lies_within(g, slug, y),
{
    let one = seq![(slug, depth)];
    let none = Set::<Text>::empty();
    lemma_seen_elsewhere(g, one, none, none);
    if preorder::reached(block(g, slug, depth)).contains(y) {
        assert(lies_within_any(g, one, y));
    }
    if lies_within(g, slug, y) {
        let n = choose|n: nat| #[trigger] above(g, y, n) == Some(slug);
        lemma_within_is_read(g, slug, y, n, depth);
    }
}

// ---------------------------------------------------------------------------
// The whole tree
// ---------------------------------------------------------------------------

proof fn lemma_nothing_left(g: Graph, pending: Seq<Stop>)
    requires
        g.dom().finite(),
    ensures
        preorder::walked(g, pending, g.dom()) == Seq::<Stop>::empty(),
    decreases pending.len(),
{
    if pending.len() > 0 {
        lemma_nothing_left(g, pending.skip(1));
    }
}

/// A tree is read root by root, in their order, each as one block.
pub proof fn tree_is_read_root_by_root(g: Graph)
    requires
        g.dom().finite(),
        parents_do_not_cycle(g),
    ensures
        preorder::outline(g) == blocks(g, preorder::children(g, None), 0),
        preorder::outline(g) == preorder::walked(
            g,
            preorder::at_depth(preorder::children(g, None), 0),
            Set::empty(),
        ),
{
    let none = Set::<Text>::empty();
    let list = preorder::children(g, None);
    let roots = preorder::at_depth(list, 0);
    let all = preorder::at_depth(order::in_order(g.dom()), 0);
    lemma_children_blocks(g, None, 0, none);
    let read = preorder::walked(g, roots, none);
    preorder::lemma_walk_stops(g, roots, none);
    preorder::children_are_kids(g, None);
    assert forall|y: Text| g.dom().contains(y) implies preorder::reached(read).contains(y) by {
        let n = lemma_root_above(g, y);
        let root = above(g, y, n)->0;
        lemma_within_is_read(g, root, y, n, 0);
        assert(list.contains(root));
        let i = choose|i: int| 0 <= i < list.len() && list[i] == root;
        lemma_block_stands(g, list, 0, i);
        lemma_reached_in(read, block(g, root, 0), start_of(g, list, 0, i), y);
    }
    preorder::reading_splits(g, roots, all, none);
    assert(none.union(preorder::reached(read)) =~= g.dom());
    lemma_nothing_left(g, all);
    assert(read + Seq::<Stop>::empty() =~= read);
}

/// The subtree of a head is read as one block, as deep as there are heads above
/// it.
pub proof fn subtree_is_read_as_one_block(g: Graph, slug: Text, n: nat) -> (from: int)
    requires
        g.dom().finite(),
        parents_do_not_cycle(g),
        g.dom().contains(slug),
        above(g, slug, n) is Some,
        above(g, slug, n + 1) is None,
    ensures
        stands_at(preorder::outline(g), block(g, slug, n), from),
    decreases n,
{
    tree_is_read_root_by_root(g);
    lemma_one_above(g, slug);
    if n == 0 {
        let list = preorder::children(g, None);
        preorder::children_are_kids(g, None);
        assert(preorder::kids(g, None).contains(slug));
        assert(list.contains(slug));
        let i = choose|i: int| 0 <= i < list.len() && list[i] == slug;
        lemma_block_stands(g, list, 0, i);
        start_of(g, list, 0, i)
    } else {
        let m = (n - 1) as nat;
        lemma_above_on_the_way(g, slug, 1, n);
        let parent = preorder::read_under(g, slug)->0;
        lemma_above_adds(g, slug, 1, m);
        lemma_above_adds(g, slug, 1, n);
        assert(1 + m == n);
        assert(m + 1 == n);
        let from = subtree_is_read_as_one_block(g, parent, m);
        children_are_read_block_by_block(g, parent, m);
        let list = preorder::children(g, Some(parent));
        preorder::children_are_kids(g, Some(parent));
        assert(preorder::kids(g, Some(parent)).contains(slug));
        assert(list.contains(slug));
        let i = choose|i: int| 0 <= i < list.len() && list[i] == slug;
        lemma_block_stands(g, list, n, i);
        let below = blocks(g, list, n);
        let whole = block(g, parent, m);
        assert(whole.subrange(1, 1 + below.len() as int) =~= below);
        lemma_stands_within(preorder::outline(g), whole, from, below, 1);
        lemma_stands_within(
            preorder::outline(g),
            below,
            from + 1,
            block(g, slug, n),
            start_of(g, list, n, i),
        );
        from + 1 + start_of(g, list, n, i)
    }
}

/// Siblings are read by their number, and all of the one's subtree before the
/// other.
pub proof fn siblings_are_read_by_number(
    g: Graph,
    parent: Option<Text>,
    a: Text,
    b: Text,
    i: int,
    j: int,
)
    requires
        g.dom().finite(),
        parents_do_not_cycle(g),
        preorder::kids(g, parent).contains(a),
        preorder::kids(g, parent).contains(b),
        preorder::by_seat(g)(a, b),
        0 <= i < preorder::outline(g).len(),
        0 <= j < preorder::outline(g).len(),
        preorder::outline(g)[i].0 == a,
        preorder::outline(g)[j].0 == b,
    ensures
        i < j,
        forall|k: int, y: Text|
            0 <= k < preorder::outline(g).len() && #[trigger] preorder::outline(g)[k].0 == y
                && #[trigger] lies_within(g, a, y) ==> k < j,
{
    let stops = preorder::outline(g);
    tree_is_read_root_by_root(g);
    let list = preorder::children(g, parent);
    preorder::children_are_kids(g, parent);
    preorder::by_seat_is_strict(g);
    assert(list.contains(a) && list.contains(b));
    let x = choose|x: int| 0 <= x < list.len() && list[x] == a;
    let y = choose|y: int| 0 <= y < list.len() && list[y] == b;
    if y <= x {
        if y < x {
            assert(preorder::by_seat(g)(list[y], list[x]));
        }
        assert(false);
    }
    let (base, depth) = match parent {
        None => (0int, 0nat),
        Some(p) => {
            let n = lemma_depth(g, p);
            let from = subtree_is_read_as_one_block(g, p, n);
            children_are_read_block_by_block(g, p, n);
            let below = blocks(g, list, n + 1);
            assert(block(g, p, n).subrange(1, 1 + below.len() as int) =~= below);
            lemma_stands_within(stops, block(g, p, n), from, below, 1);
            (from + 1, n + 1)
        },
    };
    let below = blocks(g, list, depth);
    assert(stands_at(stops, below, base)) by {
        if parent is None {
            assert(stops.subrange(0, 0 + below.len() as int) =~= below);
        }
    }
    let at_a = start_of(g, list, depth, x);
    let at_b = start_of(g, list, depth, y);
    lemma_block_stands(g, list, depth, x);
    lemma_block_stands(g, list, depth, y);
    lemma_later_block_starts_later(g, list, depth, x, y);
    let mine = block(g, a, depth);
    lemma_stands_within(stops, below, base, mine, at_a);
    lemma_stands_within(stops, below, base, block(g, b, depth), at_b);
    lemma_head_of_block(g, a, depth, stops, base + at_a, i);
    lemma_head_of_block(g, b, depth, stops, base + at_b, j);
    assert forall|k: int, z: Text|
        0 <= k < stops.len() && #[trigger] stops[k].0 == z && #[trigger] lies_within(
            g,
            a,
            z,
        ) implies k < j by {
        block_is_the_subtree(g, a, depth, z);
        let at = choose|at: int| 0 <= at < mine.len() && preorder::slugs_of(mine)[at] == z;
        assert(stops.subrange(base + at_a, base + at_a + mine.len())[at] == stops[base + at_a
            + at]);
        lemma_read_once(g, k, base + at_a + at);
    }
}

/// How many heads lie above a head.
proof fn lemma_depth(g: Graph, slug: Text) -> (n: nat)
    requires
        g.dom().finite(),
        parents_do_not_cycle(g),
        g.dom().contains(slug),
    ensures
        above(g, slug, n) is Some,
        above(g, slug, n + 1) is None,
{
    let n = lemma_root_above(g, slug);
    assert((n + 1 - 1) as nat == n);
    n
}

/// A head is read at one place.
proof fn lemma_read_once(g: Graph, i: int, j: int)
    requires
        g.dom().finite(),
        0 <= i < preorder::outline(g).len(),
        0 <= j < preorder::outline(g).len(),
        preorder::outline(g)[i].0 == preorder::outline(g)[j].0,
    ensures
        i == j,
{
    preorder::every_head_is_read_once(g);
    assert(preorder::slugs_of(preorder::outline(g))[i] == preorder::slugs_of(
        preorder::outline(g),
    )[j]);
}

/// The block of a head begins where the head is read.
proof fn lemma_head_of_block(
    g: Graph,
    slug: Text,
    depth: nat,
    stops: Seq<Stop>,
    from: int,
    i: int,
)
    requires
        g.dom().finite(),
        parents_do_not_cycle(g),
        g.dom().contains(slug),
        stops == preorder::outline(g),
        stands_at(stops, block(g, slug, depth), from),
        0 <= i < stops.len(),
        stops[i].0 == slug,
    ensures
        i == from,
        block(g, slug, depth).len() > 0,
{
    children_are_read_block_by_block(g, slug, depth);
    let part = block(g, slug, depth);
    assert(part[0] == (slug, depth));
    assert(stops.subrange(from, from + part.len())[0] == stops[from]);
    lemma_read_once(g, i, from);
}

// ---------------------------------------------------------------------------
// Parents first
// ---------------------------------------------------------------------------

/// Each stop below the top comes after the head that it is read under and lies
/// one deeper than it; `seen` holds the heads that were read before.
spec fn nests(g: Graph, stops: Seq<Stop>, seen: Map<Text, nat>) -> bool {
    forall|i: int| #![trigger stops[i]]
        0 <= i < stops.len() && stops[i].1 > 0 ==> {
            let parent = preorder::read_under(g, stops[i].0);
            &&& parent is Some
            &&& {
                ||| seen.dom().contains(parent->0) && seen[parent->0] + 1 == stops[i].1
                ||| exists|j: int|
                    0 <= j < i && #[trigger] stops[j].0 == parent->0 && stops[j].1 + 1
                        == stops[i].1
            }
        }
}

proof fn lemma_walk_nests(g: Graph, pending: Seq<Stop>, seen: Map<Text, nat>)
    requires
        g.dom().finite(),
        nests(g, pending, seen),
        forall|i: int| #![trigger pending[i]]
            0 <= i < pending.len() && pending[i].1 > 0 ==> {
                let parent = preorder::read_under(g, pending[i].0);
                &&& parent is Some
                &&& seen.dom().contains(parent->0)
                &&& seen[parent->0] + 1 == pending[i].1
            },
    ensures
        nests(g, preorder::walked(g, pending, seen.dom()), seen),
    decreases g.dom().difference(seen.dom()).len(), pending.len(),
{
    if pending.len() > 0 {
        let (slug, depth) = pending[0];
        let rest = pending.skip(1);
        assert forall|i: int| #![trigger rest[i]]
            0 <= i < rest.len() && rest[i].1 > 0 implies {
            let parent = preorder::read_under(g, rest[i].0);
            &&& parent is Some
            &&& seen.dom().contains(parent->0)
            &&& seen[parent->0] + 1 == rest[i].1
        } by {
            assert(rest[i] == pending[i + 1]);
        }
        if seen.dom().contains(slug) || !g.dom().contains(slug) {
            lemma_walk_nests(g, rest, seen);
        } else {
            preorder::lemma_fewer_left(g, seen.dom(), slug);
            let list = preorder::children(g, Some(slug));
            let more = preorder::at_depth(list, depth + 1);
            let next = more + rest;
            let been = seen.insert(slug, depth);
            assert(been.dom() =~= seen.dom().insert(slug));
            preorder::children_are_kids(g, Some(slug));
            assert forall|i: int| #![trigger next[i]]
                0 <= i < next.len() && next[i].1 > 0 implies {
                let parent = preorder::read_under(g, next[i].0);
                &&& parent is Some
                &&& been.dom().contains(parent->0)
                &&& been[parent->0] + 1 == next[i].1
            } by {
                if i < more.len() {
                    assert(next[i] == (list[i], depth + 1));
                    assert(list.contains(list[i]));
                    assert(preorder::kids(g, Some(slug)).contains(list[i]));
                } else {
                    assert(next[i] == rest[i - more.len()]);
                }
            }
            lemma_walk_nests(g, next, been);
            let tail = preorder::walked(g, next, been.dom());
            let all = preorder::walked(g, pending, seen.dom());
            assert(all == seq![pending[0]] + tail);
            assert forall|i: int| #![trigger all[i]] 0 <= i < all.len() && all[i].1 > 0 implies {
                let parent = preorder::read_under(g, all[i].0);
                &&& parent is Some
                &&& {
                    ||| seen.dom().contains(parent->0) && seen[parent->0] + 1 == all[i].1
                    ||| exists|j: int|
                        0 <= j < i && #[trigger] all[j].0 == parent->0 && all[j].1 + 1 == all[i].1
                }
            } by {
                let parent = preorder::read_under(g, all[i].0);
                if i > 0 {
                    assert(all[i] == tail[i - 1]);
                    if been.dom().contains(parent->0) && been[parent->0] + 1 == all[i].1 {
                        if parent->0 == slug {
                            assert(all[0].0 == parent->0 && all[0].1 + 1 == all[i].1);
                        }
                    } else {
                        let j = choose|j: int|
                            0 <= j < i - 1 && #[trigger] tail[j].0 == parent->0 && tail[j].1 + 1
                                == tail[i - 1].1;
                        assert(all[j + 1] == tail[j]);
                    }
                }
            }
        }
    }
}

/// A head is read after the one that it lies under and one deeper, and a root lies
/// at the top.
pub proof fn parents_are_read_first(g: Graph, i: int)
    requires
        g.dom().finite(),
        parents_do_not_cycle(g),
        0 <= i < preorder::outline(g).len(),
    ensures
        match preorder::read_under(g, preorder::outline(g)[i].0) {
            None => preorder::outline(g)[i].1 == 0,
            Some(parent) => exists|j: int|
                0 <= j < i && #[trigger] preorder::outline(g)[j].0 == parent
                    && preorder::outline(g)[j].1 + 1 == preorder::outline(g)[i].1,
        },
{
    let list = preorder::children(g, None);
    let roots = preorder::at_depth(list, 0);
    let none = Map::<Text, nat>::empty();
    assert(none.dom() =~= Set::<Text>::empty());
    tree_is_read_root_by_root(g);
    lemma_walk_nests(g, roots, none);
    let (slug, depth) = preorder::outline(g)[i];
    if depth == 0 {
        lemma_tops_were_pending(g, roots, none.dom(), i);
        let k = choose|k: int| 0 <= k < roots.len() && roots[k] == (slug, depth);
        preorder::children_are_kids(g, None);
        assert(list.contains(list[k]));
        assert(preorder::kids(g, None).contains(slug));
    }
}

/// A stop at the top was in the list from the start.
proof fn lemma_tops_were_pending(g: Graph, pending: Seq<Stop>, seen: Set<Text>, i: int)
    requires
        g.dom().finite(),
        0 <= i < preorder::walked(g, pending, seen).len(),
        preorder::walked(g, pending, seen)[i].1 == 0,
    ensures
        pending.contains(preorder::walked(g, pending, seen)[i]),
    decreases g.dom().difference(seen).len(), pending.len(),
{
    if pending.len() > 0 {
        let (slug, depth) = pending[0];
        let rest = pending.skip(1);
        let stop = preorder::walked(g, pending, seen)[i];
        if seen.contains(slug) || !g.dom().contains(slug) {
            lemma_tops_were_pending(g, rest, seen, i);
            let k = choose|k: int| 0 <= k < rest.len() && rest[k] == stop;
            assert(pending[k + 1] == stop);
        } else if i > 0 {
            preorder::lemma_fewer_left(g, seen, slug);
            let more = preorder::at_depth(preorder::children(g, Some(slug)), depth + 1);
            lemma_tops_were_pending(g, more + rest, seen.insert(slug), i - 1);
            let k = choose|k: int| 0 <= k < (more + rest).len() && (more + rest)[k] == stop;
            assert(k >= more.len());
            assert(pending[k - more.len() + 1] == stop);
        } else {
            assert(pending[0] == stop);
        }
    }
}

// ---------------------------------------------------------------------------
// In the words of what is stored
// ---------------------------------------------------------------------------

/// A head whose parent exists is read after it and one deeper. Any other head lies at
/// the top: one without a parent, and one whose parent does not exist.
pub proof fn stored_parents_are_read_first(g: Graph, i: int)
    requires
        g.dom().finite(),
        parents_do_not_cycle(g),
        0 <= i < preorder::outline(g).len(),
    ensures
        ({
            let (slug, depth) = preorder::outline(g)[i];
            &&& g.dom().contains(slug)
            &&& g[slug].parent is None ==> depth == 0
            &&& g[slug].parent matches Some(parent) ==> {
                &&& !g.dom().contains(parent) ==> depth == 0
                &&& g.dom().contains(parent) ==> exists|j: int|
                    0 <= j < i && #[trigger] preorder::outline(g)[j].0 == parent
                        && preorder::outline(g)[j].1 + 1 == depth
            }
        }),
{
    parents_are_read_first(g, i);
    preorder::every_head_is_read_once(g);
    let all = preorder::slugs_of(preorder::outline(g));
    assert(all[i] == preorder::outline(g)[i].0);
    assert(all.contains(all[i]));
    assert(all.to_set().contains(all[i]));
}

/// Of two heads under one parent the one with the lower number is read first or, where
/// they have the same, the one whose slug comes first; and so it is of two roots,
/// whether they name no parent or one that does not exist.
pub proof fn stored_numbers_order_siblings(g: Graph, a: Text, b: Text, i: int, j: int)
    requires
        g.dom().finite(),
        parents_do_not_cycle(g),
        0 <= i < preorder::outline(g).len(),
        0 <= j < preorder::outline(g).len(),
        preorder::outline(g)[i].0 == a,
        preorder::outline(g)[j].0 == b,
        g[a].parent == g[b].parent || ((g[a].parent matches Some(p) ==> !g.dom().contains(p)) && (
        g[b].parent matches Some(p) ==> !g.dom().contains(p))),
        g[a].seq < g[b].seq || (g[a].seq == g[b].seq && crate::text::before(a, b)),
    ensures
        i < j,
{
    stored_parents_are_read_first(g, i);
    stored_parents_are_read_first(g, j);
    siblings_are_read_by_number(g, preorder::read_under(g, a), a, b, i, j);
}

/// Whatever the parents of a tree do, a head that is not read at the top is read after
/// its parent and one deeper.
pub proof fn what_is_not_at_the_top_follows_its_parent(g: Graph, i: int)
    requires
        g.dom().finite(),
        0 <= i < preorder::outline(g).len(),
        preorder::outline(g)[i].1 > 0,
    ensures
        g[preorder::outline(g)[i].0].parent matches Some(parent) && g.dom().contains(parent)
            && exists|j: int|
            0 <= j < i && #[trigger] preorder::outline(g)[j].0 == parent && preorder::outline(
                g,
            )[j].1 + 1 == preorder::outline(g)[i].1,
{
    let none = Map::<Text, nat>::empty();
    assert(none.dom() =~= Set::<Text>::empty());
    let pending = preorder::at_depth(preorder::children(g, None), 0) + preorder::at_depth(
        order::in_order(g.dom()),
        0,
    );
    lemma_walk_nests(g, pending, none);
    let stop = preorder::outline(g)[i];
    assert(stop == preorder::walked(g, pending, none.dom())[i]);
}

/// A head that is read at the top although its parent exists, as only one in a circle of
/// parents is, is read after every head whose slug comes before its own.
pub proof fn circles_are_entered_in_the_order_of_slugs(g: Graph, i: int, slug: Text)
    requires
        g.dom().finite(),
        0 <= i < preorder::outline(g).len(),
        preorder::outline(g)[i].1 == 0,
        preorder::read_under(g, preorder::outline(g)[i].0) is Some,
        g.dom().contains(slug),
        crate::text::before(slug, preorder::outline(g)[i].0),
    ensures
        exists|j: int| 0 <= j < i && #[trigger] preorder::outline(g)[j].0 == slug,
{
    let x = preorder::outline(g)[i].0;
    let none = Set::<Text>::empty();
    let roots = preorder::at_depth(preorder::children(g, None), 0);
    let keys = order::in_order(g.dom());
    let all = preorder::at_depth(keys, 0);
    preorder::every_head_is_read_once(g);
    let read = preorder::slugs_of(preorder::outline(g));
    assert(read[i] == x);
    assert(read.to_set().contains(x)) by {
        assert(read.contains(x));
    }
    order::by_text_is_strict();
    order::arrangement_exists(g.dom(), order::by_text());
    assert(keys.contains(x) && keys.contains(slug));
    let k = choose|k: int| 0 <= k < keys.len() && keys[k] == x;
    let m = choose|m: int| 0 <= m < keys.len() && keys[m] == slug;
    let lt = order::by_text();
    assert(lt(slug, x));
    if k <= m {
        if k < m {
            assert(lt(keys[k], keys[m]));
            assert(lt(x, slug) && lt(slug, x));
        }
        assert(lt(x, x));
        assert(false);
    }
    // What is pending before the slug's turn, and from it on.
    let first = roots + all.take(m + 1);
    let rest = all.skip(m + 1);
    assert(roots + all =~= first + rest);
    preorder::reading_splits(g, first, rest, none);
    let front = preorder::walked(g, first, none);
    preorder::lemma_walk_stops(g, first, none);
    lemma_pending_is_read(g, first, none, roots.len() + m);
    assert(first[roots.len() + m].0 == slug);
    assert(preorder::reached(front).contains(slug));
    let fs = preorder::slugs_of(front);
    let j = choose|j: int| 0 <= j < fs.len() && fs[j] == slug;
    assert(preorder::outline(g)[j] == front[j]);
    if i < front.len() {
        // The head stands among what was pending so far, which it does not.
        assert(front[i] == preorder::outline(g)[i]);
        lemma_tops_were_pending(g, first, none, i);
        let p = choose|p: int| 0 <= p < first.len() && first[p] == front[i];
        if p < roots.len() {
            preorder::children_are_kids(g, None);
            let list = preorder::children(g, None);
            assert(first[p] == roots[p]);
            assert(list.contains(list[p]));
            assert(preorder::kids(g, None).contains(x));
        } else {
            assert(first[p] == all[p - roots.len()]);
            let q = p - roots.len();
            assert(keys[q] == keys[k]);
            order::arranged_has_no_duplicates(keys, order::by_text());
        }
    }
    assert(j < i);
}

/// What is pending is read.
proof fn lemma_pending_is_read(g: Graph, pending: Seq<Stop>, seen: Set<Text>, p: int)
    requires
        g.dom().finite(),
        0 <= p < pending.len(),
        g.dom().contains(pending[p].0),
    ensures
        seen.contains(pending[p].0) || preorder::reached(
            preorder::walked(g, pending, seen),
        ).contains(pending[p].0),
    decreases g.dom().difference(seen).len(), pending.len(),
{
    let (slug, depth) = pending[0];
    let rest = pending.skip(1);
    if seen.contains(slug) || !g.dom().contains(slug) {
        if p > 0 {
            assert(rest[p - 1] == pending[p]);
            lemma_pending_is_read(g, rest, seen, p - 1);
        }
    } else {
        preorder::lemma_fewer_left(g, seen, slug);
        let more = preorder::at_depth(preorder::children(g, Some(slug)), depth + 1);
        let next = more + rest;
        preorder::lemma_reached_first(pending[0], preorder::walked(g, next, seen.insert(slug)));
        if p > 0 {
            assert(next[more.len() + p - 1] == pending[p]);
            lemma_pending_is_read(g, next, seen.insert(slug), more.len() + p - 1);
        }
    }
}

} // verus!

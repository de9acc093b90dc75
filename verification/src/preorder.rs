//! The order in which a tree is read: depth first, siblings by their number.

use vstd::prelude::*;

use crate::model::{Graph, Head, HeadView, Tree};
use crate::order;
use crate::text::{self, Text};

verus! {

/// A slug and how deep it lies.
pub type Stop = (Text, nat);

/// The parent that a head is read under: the one it names, if that exists. A head
/// whose parent does not exist is read as a root rather than left out.
pub open spec fn read_under(g: Graph, slug: Text) -> Option<Text> {
    match g[slug].parent {
        Some(parent) if g.dom().contains(parent) => Some(parent),
        _ => None,
    }
}

pub open spec fn kids(g: Graph, parent: Option<Text>) -> Set<Text> {
    Set::new(|slug: Text| g.dom().contains(slug) && read_under(g, slug) == parent)
}

/// The order of siblings: by number and, where a hand edit made two the same, by
/// slug.
pub open spec fn by_seat(g: Graph) -> spec_fn(Text, Text) -> bool {
    |a: Text, b: Text|
        g[a].seq < g[b].seq || (g[a].seq == g[b].seq && text::before(a, b))
}

/// The heads under a parent, in order.
pub open spec fn children(g: Graph, parent: Option<Text>) -> Seq<Text> {
    order::arranged(kids(g, parent), by_seat(g))
}

pub open spec fn at_depth(slugs: Seq<Text>, depth: nat) -> Seq<Stop> {
    slugs.map_values(|slug: Text| (slug, depth))
}

/// The stops of a walk that has `pending` before it, first one first, and has
/// been to `seen`: at each head that it has not been to it stops, and goes on to
/// the children of that head before the rest.
pub open spec fn walked(g: Graph, pending: Seq<Stop>, seen: Set<Text>) -> Seq<Stop>
    decreases g.dom().difference(seen).len(), pending.len(),
    when g.dom().finite()
{
    if pending.len() == 0 {
        Seq::empty()
    } else {
        let (slug, depth) = pending[0];
        let rest = pending.skip(1);
        if seen.contains(slug) || !g.dom().contains(slug) {
            walked(g, rest, seen)
        } else {
            proof {
                lemma_fewer_left(g, seen, slug);
            }
            seq![pending[0]] + walked(
                g,
                at_depth(children(g, Some(slug)), depth + 1) + rest,
                seen.insert(slug),
            )
        }
    }
}

/// The whole tree: first from its roots, then from every head that was not
/// reached, as the members of a cycle of parents are not, in the order of slugs.
pub open spec fn outline(g: Graph) -> Seq<Stop> {
    walked(
        g,
        at_depth(children(g, None), 0) + at_depth(order::in_order(g.dom()), 0),
        Set::empty(),
    )
}

pub open spec fn slugs_of(stops: Seq<Stop>) -> Seq<Text> {
    stops.map_values(|stop: Stop| stop.0)
}

pub proof fn lemma_fewer_left(g: Graph, seen: Set<Text>, slug: Text)
    requires
        g.dom().finite(),
        g.dom().contains(slug),
        !seen.contains(slug),
    ensures
        g.dom().difference(seen.insert(slug)).len() < g.dom().difference(seen).len(),
{
    let less = g.dom().difference(seen.insert(slug));
    assert(less =~= g.dom().difference(seen).remove(slug));
}

pub proof fn by_seat_is_strict(g: Graph)
    ensures
        order::strict_order(by_seat(g)),
{
    let lt = by_seat(g);
    assert forall|a: Text| !#[trigger] lt(a, a) by {
        text::before_irreflexive(a);
    }
    assert forall|a: Text, b: Text, c: Text| #[trigger] lt(a, b) && #[trigger] lt(b, c) implies lt(
        a,
        c,
    ) by {
        if g[a].seq == g[b].seq && g[b].seq == g[c].seq {
            text::before_transitive(a, b, c);
        }
    }
    assert forall|a: Text, b: Text| #[trigger] lt(a, b) || a == b || lt(b, a) by {
        text::before_total(a, b);
    }
}

pub proof fn children_are_kids(g: Graph, parent: Option<Text>)
    requires
        g.dom().finite(),
    ensures
        order::arranges(children(g, parent), kids(g, parent), by_seat(g)),
{
    by_seat_is_strict(g);
    assert(kids(g, parent).subset_of(g.dom()));
    vstd::set_lib::lemma_set_subset_finite(g.dom(), kids(g, parent));
    order::arrangement_exists(kids(g, parent), by_seat(g));
}

// ---------------------------------------------------------------------------
// The walk
// ---------------------------------------------------------------------------

/// One stop of the walk.
#[derive(Debug, Clone, Copy)]
pub struct Visit<'t> {
    /// The slug that the head is filed under, which is what identifies it.
    pub slug: &'t str,
    pub head: &'t Head,
    pub depth: usize,
}

pub open spec fn stops(visits: Seq<Visit>) -> Seq<Stop> {
    visits.map_values(|visit: Visit| (visit.slug@, visit.depth as nat))
}

/// Every visit holds the head that is filed under its slug.
pub open spec fn reads(g: Graph, visits: Seq<Visit>) -> bool {
    forall|i: int|
        0 <= i < visits.len() ==> {
            &&& g.dom().contains((#[trigger] visits[i]).slug@)
            &&& visits[i].head@ == g[visits[i].slug@]
        }
}

/// The heads at the given places.
spec fn at_places(keys: Seq<Text>, places: Seq<usize>) -> Seq<Text> {
    places.map_values(|place: usize| keys[place as int])
}

/// What a stack of places and depths has before it: the top first.
spec fn pending_of(keys: Seq<Text>, stack: Seq<(usize, usize)>) -> Seq<Stop> {
    Seq::new(
        stack.len(),
        |i: int|
            {
                let entry = stack[stack.len() - 1 - i];
                (keys[entry.0 as int], entry.1 as nat)
            },
    )
}

fn sits_before(tree: &Tree, a: usize, b: usize) -> (r: bool)
    requires
        a < tree.heads.keys().len(),
        b < tree.heads.keys().len(),
    ensures
        r == by_seat(tree@.heads)(
            tree.heads.keys()[a as int],
            tree.heads.keys()[b as int],
        ),
{
    let x = tree.heads.value_at(a).seq;
    let y = tree.heads.value_at(b).seq;
    x < y || (x == y && text::is_before(
        tree.heads.key_at(a).as_str(),
        tree.heads.key_at(b).as_str(),
    ))
}

/// Whether the `i`th head is read under `parent`.
fn is_kid(tree: &Tree, i: usize, parent: Option<&str>) -> (r: bool)
    requires
        i < tree.heads.keys().len(),
    ensures
        r == kids(tree@.heads, text::optional_str(parent)).contains(tree.heads.keys()[i as int]),
{
    let head = tree.heads.value_at(i);
    match &head.parent {
        Some(named) => if tree.heads.contains_key(named.as_str()) {
            match parent {
                Some(parent) => text::same(named.as_str(), parent),
                None => false,
            }
        } else {
            parent.is_none()
        },
        None => parent.is_none(),
    }
}

/// The places of the heads under `parent`, in order.
fn child_places(tree: &Tree, parent: Option<&str>) -> (r: Vec<usize>)
    ensures
        at_places(tree.heads.keys(), r@) == children(tree@.heads, text::optional_str(parent)),
        forall|i: int| 0 <= i < r@.len() ==> (#[trigger] r@[i]) < tree.heads.keys().len(),
{
    proof {
        use_type_invariant(&tree.heads);
        crate::heads::lemma_zipped(tree.heads.keys(), tree.heads.values());
        by_seat_is_strict(tree@.heads);
        order::by_text_is_strict();
        order::arranged_has_no_duplicates(tree.heads.keys(), order::by_text());
    }
    let ghost g = tree@.heads;
    let ghost keys = tree.heads.keys();
    let ghost lt = by_seat(g);
    let ghost up = text::optional_str(parent);
    let count = tree.heads.len();
    let mut out: Vec<usize> = Vec::new();
    let ghost mut so_far: Set<Text> = Set::empty();
    assert(at_places(keys, out@) =~= Seq::<Text>::empty());
    for i in 0..count
        invariant
            g == tree@.heads,
            keys == tree.heads.keys(),
            keys.no_duplicates(),
            lt == by_seat(g),
            order::strict_order(lt),
            up == text::optional_str(parent),
            count == keys.len(),
            order::arranges(at_places(keys, out@), so_far, lt),
            forall|x: Text| #[trigger]
                so_far.contains(x) <==> keys.take(i as int).contains(x) && kids(g, up).contains(x),
            forall|j: int| 0 <= j < out@.len() ==> (#[trigger] out@[j]) < i,
    {
        let ghost key = keys[i as int];
        let ghost list = at_places(keys, out@);
        let ghost earlier = so_far;
        if is_kid(tree, i, parent) {
            let mut at: usize = 0;
            while at < out.len() && sits_before(tree, out[at], i)
                invariant
                    g == tree@.heads,
                    keys == tree.heads.keys(),
                    lt == by_seat(g),
                    i < keys.len(),
                    key == keys[i as int],
                    list == at_places(keys, out@),
                    at <= out@.len(),
                    forall|j: int| 0 <= j < out@.len() ==> (#[trigger] out@[j]) < i,
                    forall|j: int| 0 <= j < at ==> lt(#[trigger] list[j], key),
                decreases out@.len() - at,
            {
                assert(list[at as int] == keys[out@[at as int] as int]);
                at = at + 1;
            }
            proof {
                assert forall|j: int| at <= j < list.len() implies lt(key, #[trigger] list[j]) by {
                    assert(list[at as int] == keys[out@[at as int] as int]);
                    assert(lt(list[at as int], key) || list[at as int] == key || lt(
                        key,
                        list[at as int],
                    ));
                    if j > at {
                        assert(lt(list[at as int], list[j]));
                    }
                }
                order::lemma_insert(list, so_far, at as int, key, lt);
                assert(at_places(keys, out@.insert(at as int, i)) =~= list.insert(
                    at as int,
                    key,
                ));
                so_far = so_far.insert(key);
            }
            out.insert(at, i);
        }
        proof {
            assert forall|x: Text| #[trigger] so_far.contains(x) <==> keys.take(i + 1).contains(x)
                && kids(g, up).contains(x) by {
                assert(keys.take(i + 1) =~= keys.take(i as int).push(key));
                crate::cascade::lemma_contains_push(keys.take(i as int), key, x);
                assert(earlier.contains(x) <==> keys.take(i as int).contains(x) && kids(
                    g,
                    up,
                ).contains(x));
            }
        }
    }
    proof {
        assert(keys.take(count as int) =~= keys);
        assert(so_far =~= kids(g, up));
        order::arranged_is(at_places(keys, out@), so_far, lt);
    }
    out
}

/// Puts `places` on the stack so that the first comes off first.
fn push_all(stack: &mut Vec<(usize, usize)>, places: &Vec<usize>, depth: usize, Ghost(keys): Ghost<
    Seq<Text>,
>)
    ensures
        pending_of(keys, final(stack)@) == at_depth(at_places(keys, places@), depth as nat)
            + pending_of(keys, old(stack)@),
        final(stack)@.len() == old(stack)@.len() + places@.len(),
        forall|i: int|
            0 <= i < final(stack)@.len() ==> {
                ||| (#[trigger] final(stack)@[i]) == old(stack)@[i] && i < old(stack)@.len()
                ||| places@.contains(final(stack)@[i].0) && final(stack)@[i].1 == depth
            },
{
    let ghost below = pending_of(keys, stack@);
    let ghost all = at_depth(at_places(keys, places@), depth as nat);
    let mut left: usize = places.len();
    assert(all.skip(left as int) + below =~= below);
    while left > 0
        invariant
            left <= places@.len(),
            all == at_depth(at_places(keys, places@), depth as nat),
            below == pending_of(keys, old(stack)@),
            pending_of(keys, stack@) == all.skip(left as int) + below,
            stack@.len() == old(stack)@.len() + places@.len() - left,
            forall|i: int|
                0 <= i < stack@.len() ==> (#[trigger] stack@[i] == old(stack)@[i] && i < old(
                    stack,
                )@.len()) || (places@.contains(stack@[i].0) && stack@[i].1 == depth),
        decreases left,
    {
        left = left - 1;
        let ghost before = stack@;
        stack.push((places[left], depth));
        proof {
            assert(places@.contains(places@[left as int]));
            assert forall|i: int|
                0 <= i < stack@.len() implies (#[trigger] stack@[i] == old(stack)@[i] && i < old(
                stack,
            )@.len()) || (places@.contains(stack@[i].0) && stack@[i].1 == depth) by {
                if i < before.len() {
                    assert(stack@[i] == before[i]);
                }
            }
            assert(pending_of(keys, stack@) =~= seq![all[left as int]] + pending_of(keys, before));
            assert(all.skip(left as int) =~= seq![all[left as int]] + all.skip(left + 1));
            assert(seq![all[left as int]] + (all.skip(left + 1) + below) =~= all.skip(left as int)
                + below);
        }
    }
    assert(all.skip(0) =~= all);
}

/// Reads the tree depth first, siblings by their number. Every head is visited
/// once, whatever the file says.
pub fn preorder(tree: &Tree) -> (r: Vec<Visit<'_>>)
    ensures
        stops(r@) == outline(tree@.heads),
        reads(tree@.heads, r@),
{
    proof {
        use_type_invariant(&tree.heads);
        crate::heads::lemma_zipped(tree.heads.keys(), tree.heads.values());
        order::by_text_is_strict();
        order::arranged_has_no_duplicates(tree.heads.keys(), order::by_text());
    }
    let ghost g = tree@.heads;
    let ghost keys = tree.heads.keys();
    let count = tree.heads.len();
    let mut all: Vec<usize> = Vec::new();
    let mut seen: Vec<bool> = Vec::new();
    assert(at_places(keys, all@) =~= keys.take(0));
    for i in 0..count
        invariant
            count == keys.len(),
            all@.len() == i,
            at_places(keys, all@) == keys.take(i as int),
            forall|j: int| 0 <= j < i ==> (#[trigger] all@[j]) < count,
            seen@.len() == i,
            forall|j: int| 0 <= j < i ==> !#[trigger] seen@[j],
    {
        let ghost before = all@;
        all.push(i);
        seen.push(false);
        assert(at_places(keys, all@) =~= at_places(keys, before).push(keys[i as int]));
        assert(keys.take(i + 1) =~= keys.take(i as int).push(keys[i as int]));
    }
    assert(keys.take(count as int) =~= keys);
    let roots = child_places(tree, None);
    let mut stack: Vec<(usize, usize)> = Vec::new();
    assert(pending_of(keys, stack@) =~= Seq::<Stop>::empty());
    push_all(&mut stack, &all, 0, Ghost(keys));
    proof {
        assert(at_depth(keys, 0) + Seq::<Stop>::empty() =~= at_depth(keys, 0));
        assert forall|i: int| 0 <= i < stack@.len() implies (#[trigger] stack@[i]).0 < count
            && stack@[i].1 == 0 by {
            assert(all@.contains(stack@[i].0));
        }
    }
    let ghost lower = stack@;
    push_all(&mut stack, &roots, 0, Ghost(keys));
    let mut out: Vec<Visit<'_>> = Vec::new();
    let ghost mut been: Set<Text> = Set::empty();
    proof {
        assert forall|i: int| 0 <= i < stack@.len() implies (#[trigger] stack@[i]).0 < count
            && stack@[i].1 == 0 by {
            if stack@[i] == lower[i] && i < lower.len() {
                assert(lower[i].0 < count);
            } else {
                assert(roots@.contains(stack@[i].0));
            }
        }
        assert(stops(out@) =~= Seq::<Stop>::empty());
        assert(stops(out@) + outline(g) =~= outline(g));
        assert forall|j: int| 0 <= j < count implies seen@[j] == been.contains(
            #[trigger] keys[j],
        ) by {
            assert(!seen@[j]);
        }
    }
    while stack.len() > 0
        invariant
            g == tree@.heads,
            keys == tree.heads.keys(),
            count == keys.len(),
            keys.no_duplicates(),
            g.dom().finite(),
            g.dom().len() == count,
            g.dom() == keys.to_set(),
            seen@.len() == count,
            forall|j: int| 0 <= j < count ==> seen@[j] == been.contains(#[trigger] keys[j]),
            been.subset_of(g.dom()),
            been.finite(),
            been.len() == out@.len(),
            forall|i: int|
                0 <= i < stack@.len() ==> (#[trigger] stack@[i]).0 < count && stack@[i].1
                    <= out@.len(),
            outline(g) == stops(out@) + walked(g, pending_of(keys, stack@), been),
            reads(g, out@),
        decreases g.dom().difference(been).len(), stack@.len(),
    {
        let ghost pending = pending_of(keys, stack@);
        let ghost before = stack@;
        let (place, depth) = match stack.pop() {
            Some(entry) => entry,
            None => (0usize, 0usize),
        };
        let ghost slug = keys[place as int];
        proof {
            assert(before.last() == (place, depth));
            assert(pending[0] == (slug, depth as nat));
            assert(pending_of(keys, stack@) =~= pending.skip(1));
            assert(keys.contains(slug));
            assert forall|i: int| 0 <= i < stack@.len() implies (#[trigger] stack@[i]).0 < count
                && stack@[i].1 <= out@.len() by {
                assert(stack@[i] == before[i]);
            }
        }
        if !seen[place] {
            let ghost earlier = out@;
            let ghost been0 = been;
            let key = tree.heads.key_at(place);
            let visit = Visit { slug: key.as_str(), head: tree.heads.value_at(place), depth };
            proof {
                lemma_fewer_left(g, been, slug);
                been = been.insert(slug);
                vstd::set_lib::lemma_len_subset(been, g.dom());
                assert(stops(out@.push(visit)) =~= stops(out@).push((slug, depth as nat)));
                assert forall|j: int| 0 <= j < count implies seen@.update(
                    place as int,
                    true,
                )[j] == been.contains(#[trigger] keys[j]) by {}
                assert forall|i: int| 0 <= i < out@.push(visit).len() implies g.dom().contains(
                    (#[trigger] out@.push(visit)[i]).slug@,
                ) && out@.push(visit)[i].head@ == g[out@.push(visit)[i].slug@] by {
                    if i < earlier.len() {
                        assert(out@.push(visit)[i] == earlier[i]);
                    }
                }
            }
            seen.set(place, true);
            out.push(visit);
            let below = child_places(tree, Some(key.as_str()));
            let ghost lower = stack@;
            push_all(&mut stack, &below, depth + 1, Ghost(keys));
            proof {
                assert forall|i: int| 0 <= i < stack@.len() implies (#[trigger] stack@[i]).0
                    < count && stack@[i].1 <= out@.len() by {
                    if stack@[i] == lower[i] && i < lower.len() {
                        assert(lower[i].0 < count);
                    } else {
                        assert(below@.contains(stack@[i].0));
                    }
                }
                let rest = walked(g, pending_of(keys, stack@), been);
                assert(walked(g, pending, been0) == seq![pending[0]] + rest);
                assert(stops(earlier) + (seq![pending[0]] + rest) =~= stops(out@) + rest);
            }
        }
    }
    assert(pending_of(keys, stack@) =~= Seq::<Stop>::empty());
    assert(stops(out@) + Seq::<Stop>::empty() =~= stops(out@));
    out
}

// ---------------------------------------------------------------------------
// What the walk promises
// ---------------------------------------------------------------------------

/// The heads that a walk stops at, as a set.
pub open spec fn reached(stops: Seq<Stop>) -> Set<Text> {
    slugs_of(stops).to_set()
}

pub proof fn lemma_reached_first(first: Stop, tail: Seq<Stop>)
    ensures
        slugs_of(seq![first] + tail) == seq![first.0] + slugs_of(tail),
        reached(seq![first] + tail) == reached(tail).insert(first.0),
{
    let all = seq![first] + tail;
    assert(slugs_of(all) =~= seq![first.0] + slugs_of(tail));
    assert forall|x: Text| reached(all).contains(x) <==> reached(tail).insert(first.0).contains(
        x,
    ) by {
        if slugs_of(all).contains(x) {
            let i = choose|i: int| 0 <= i < all.len() && slugs_of(all)[i] == x;
            if i > 0 {
                assert(slugs_of(tail)[i - 1] == x);
            }
        }
        if x == first.0 {
            assert(slugs_of(all)[0] == x);
        }
        if slugs_of(tail).contains(x) {
            let i = choose|i: int| 0 <= i < tail.len() && slugs_of(tail)[i] == x;
            assert(slugs_of(all)[i + 1] == x);
        }
    }
    assert(reached(all) =~= reached(tail).insert(first.0));
}

/// A walk stops at heads that it has not been to, at each once, and at every one
/// that was before it.
pub proof fn lemma_walk_stops(g: Graph, pending: Seq<Stop>, seen: Set<Text>)
    requires
        g.dom().finite(),
    ensures
        slugs_of(walked(g, pending, seen)).no_duplicates(),
        forall|x: Text| #[trigger]
            reached(walked(g, pending, seen)).contains(x) ==> g.dom().contains(x)
                && !seen.contains(x),
        forall|i: int|
            0 <= i < pending.len() && g.dom().contains((#[trigger] pending[i]).0)
                && !seen.contains(pending[i].0) ==> reached(walked(g, pending, seen)).contains(
                pending[i].0,
            ),
    decreases g.dom().difference(seen).len(), pending.len(),
{
    if pending.len() > 0 {
        let (slug, depth) = pending[0];
        let rest = pending.skip(1);
        if seen.contains(slug) || !g.dom().contains(slug) {
            lemma_walk_stops(g, rest, seen);
            assert forall|i: int|
                0 <= i < pending.len() && g.dom().contains((#[trigger] pending[i]).0)
                    && !seen.contains(pending[i].0) implies reached(
                walked(g, pending, seen),
            ).contains(pending[i].0) by {
                assert(pending[i] == rest[i - 1]);
            }
        } else {
            lemma_fewer_left(g, seen, slug);
            let next = at_depth(children(g, Some(slug)), depth + 1) + rest;
            lemma_walk_stops(g, next, seen.insert(slug));
            let tail = walked(g, next, seen.insert(slug));
            lemma_reached_first(pending[0], tail);
            let all = slugs_of(walked(g, pending, seen));
            assert(all =~= seq![slug] + slugs_of(tail));
            assert forall|i: int, j: int|
                0 <= i < all.len() && 0 <= j < all.len() && i != j implies all[i] != all[j] by {
                if i > 0 {
                    assert(all[i] == slugs_of(tail)[i - 1]);
                    assert(slugs_of(tail).contains(all[i]));
                    assert(reached(tail).contains(all[i]));
                }
                if j > 0 {
                    assert(all[j] == slugs_of(tail)[j - 1]);
                    assert(slugs_of(tail).contains(all[j]));
                    assert(reached(tail).contains(all[j]));
                }
            }
            assert forall|i: int|
                0 <= i < pending.len() && g.dom().contains((#[trigger] pending[i]).0)
                    && !seen.contains(pending[i].0) implies reached(
                walked(g, pending, seen),
            ).contains(pending[i].0) by {
                if pending[i].0 != slug {
                    let k = children(g, Some(slug)).len() + i - 1;
                    assert(next[k] == rest[i - 1]);
                    assert(next[k] == pending[i]);
                }
            }
        }
    }
}

/// Every head of a tree is read exactly once, whatever its edges.
pub proof fn every_head_is_read_once(g: Graph)
    requires
        g.dom().finite(),
    ensures
        slugs_of(outline(g)).no_duplicates(),
        slugs_of(outline(g)).to_set() == g.dom(),
        outline(g).len() == g.dom().len(),
{
    let roots = at_depth(children(g, None), 0);
    let all = order::in_order(g.dom());
    let pending = roots + at_depth(all, 0);
    lemma_walk_stops(g, pending, Set::empty());
    order::by_text_is_strict();
    order::arrangement_exists(g.dom(), order::by_text());
    assert forall|x: Text| g.dom().contains(x) implies reached(outline(g)).contains(x) by {
        assert(all.contains(x));
        let i = choose|i: int| 0 <= i < all.len() && all[i] == x;
        assert(pending[roots.len() + i].0 == x);
    }
    assert(reached(outline(g)) =~= g.dom());
    slugs_of(outline(g)).unique_seq_to_set();
}

/// What is read for two lists of heads is what is read for the first and then
/// what the first has left of the second: a subtree is read as one block.
pub proof fn reading_splits(g: Graph, a: Seq<Stop>, b: Seq<Stop>, seen: Set<Text>)
    requires
        g.dom().finite(),
    ensures
        walked(g, a + b, seen) == walked(g, a, seen) + walked(
            g,
            b,
            seen.union(reached(walked(g, a, seen))),
        ),
    decreases g.dom().difference(seen).len(), a.len(),
{
    if a.len() == 0 {
        assert(a + b =~= b);
        assert(slugs_of(walked(g, a, seen)) =~= Seq::<Text>::empty());
        assert(seen.union(reached(walked(g, a, seen))) =~= seen);
        assert(walked(g, a, seen) + walked(g, b, seen) =~= walked(g, b, seen));
    } else {
        let (slug, depth) = a[0];
        let rest = a.skip(1);
        assert((a + b)[0] == a[0]);
        assert((a + b).skip(1) =~= rest + b);
        if seen.contains(slug) || !g.dom().contains(slug) {
            reading_splits(g, rest, b, seen);
        } else {
            lemma_fewer_left(g, seen, slug);
            let kids = at_depth(children(g, Some(slug)), depth + 1);
            let been = seen.insert(slug);
            assert(kids + (rest + b) =~= (kids + rest) + b);
            reading_splits(g, kids + rest, b, been);
            let tail = walked(g, kids + rest, been);
            lemma_reached_first(a[0], tail);
            assert(been.union(reached(tail)) =~= seen.union(reached(walked(g, a, seen))));
            let last = walked(g, b, been.union(reached(tail)));
            assert(seq![a[0]] + (tail + last) =~= (seq![a[0]] + tail) + last);
        }
    }
}

// ---------------------------------------------------------------------------
// Stability
// ---------------------------------------------------------------------------

pub open spec fn other_than(slug: Text) -> spec_fn(Stop) -> bool {
    |stop: Stop| stop.0 != slug
}

/// The stops at other heads than `slug`.
pub open spec fn elsewhere(stops: Seq<Stop>, slug: Text) -> Seq<Stop> {
    stops.filter(other_than(slug))
}

proof fn lemma_elsewhere_first(first: Stop, rest: Seq<Stop>, slug: Text)
    ensures
        elsewhere(seq![first] + rest, slug) == (if first.0 == slug {
            elsewhere(rest, slug)
        } else {
            seq![first] + elsewhere(rest, slug)
        }),
{
    let p = other_than(slug);
    let one = seq![first];
    Seq::filter_distributes_over_add(one, rest, p);
    assert(one.filter(p) == if first.0 == slug { Seq::<Stop>::empty() } else { one }) by {
        reveal(Seq::filter);
        assert(one.drop_last() =~= Seq::<Stop>::empty());
        assert(one.drop_last().filter(p) =~= Seq::<Stop>::empty());
        assert(Seq::<Stop>::empty().push(first) =~= one);
    }
    assert(Seq::<Stop>::empty() + rest.filter(p) =~= rest.filter(p));
}

proof fn lemma_elsewhere_at_depth(list: Seq<Text>, depth: nat, slug: Text)
    ensures
        elsewhere(at_depth(list, depth), slug) == at_depth(
            list.filter(|x: Text| x != slug),
            depth,
        ),
    decreases list.len(),
{
    reveal(Seq::filter);
    let p = other_than(slug);
    let q = |x: Text| x != slug;
    let stops = at_depth(list, depth);
    if list.len() > 0 {
        lemma_elsewhere_at_depth(list.drop_last(), depth, slug);
        assert(stops.drop_last() =~= at_depth(list.drop_last(), depth));
        assert(stops.last() == (list.last(), depth));
        let part = list.drop_last().filter(q);
        assert(at_depth(part.push(list.last()), depth) =~= at_depth(part, depth).push(
            (list.last(), depth),
        ));
    } else {
        assert(at_depth(list.filter(q), depth) =~= Seq::<Stop>::empty());
        assert(stops.filter(p) =~= Seq::<Stop>::empty());
    }
}

/// No head of `g` is read under `slug`, which it does not hold.
pub open spec fn unnamed(g: Graph, slug: Text) -> bool {
    &&& !g.dom().contains(slug)
    &&& forall|x: Text| #[trigger] g.dom().contains(x) ==> g[x].parent != Some(slug)
}

proof fn lemma_children_elsewhere(g: Graph, slug: Text, head: HeadView, parent: Option<Text>)
    requires
        g.dom().finite(),
        unnamed(g, slug),
        head.parent != Some(slug),
    ensures
        parent != Some(slug) ==> children(g.insert(slug, head), parent).filter(
            |x: Text| x != slug,
        ) == children(g, parent),
        parent == Some(slug) ==> children(g.insert(slug, head), parent) == Seq::<Text>::empty(),
{
    let h = g.insert(slug, head);
    let q = |x: Text| x != slug;
    children_are_kids(h, parent);
    let list = children(h, parent);
    assert forall|x: Text| x != slug && g.dom().contains(x) implies read_under(h, x) == read_under(
        g,
        x,
    ) by {}
    if parent == Some(slug) {
        if list.len() > 0 {
            assert(list.contains(list[0]));
            assert(kids(h, parent).contains(list[0]));
        }
        assert(list =~= Seq::<Text>::empty());
    } else {
        order::lemma_part_ascends(list, q, by_seat(h));
        let part = list.filter(q);
        by_seat_is_strict(g);
        assert forall|i: int, j: int| 0 <= i < j < part.len() implies by_seat(g)(
            #[trigger] part[i],
            #[trigger] part[j],
        ) by {
            assert(by_seat(h)(part[i], part[j]));
            assert(part.contains(part[i]) && part.contains(part[j]));
        }
        assert forall|x: Text| #[trigger] part.contains(x) <==> kids(g, parent).contains(x) by {
            assert(list.contains(x) <==> kids(h, parent).contains(x));
        }
        order::arranged_is(part, kids(g, parent), by_seat(g));
    }
}

proof fn lemma_walk_elsewhere(
    g: Graph,
    slug: Text,
    head: HeadView,
    pending: Seq<Stop>,
    seen: Set<Text>,
)
    requires
        g.dom().finite(),
        unnamed(g, slug),
        head.parent != Some(slug),
    ensures
        elsewhere(walked(g.insert(slug, head), pending, seen), slug) == walked(
            g,
            elsewhere(pending, slug),
            seen.remove(slug),
        ),
    decreases g.insert(slug, head).dom().difference(seen).len(), pending.len(),
{
    let h = g.insert(slug, head);
    let been = seen.remove(slug);
    reveal(Seq::filter);
    if pending.len() == 0 {
        assert(elsewhere(pending, slug) =~= Seq::<Stop>::empty());
        assert(elsewhere(walked(h, pending, seen), slug) =~= Seq::<Stop>::empty());
    } else {
        let (x, depth) = pending[0];
        let rest = pending.skip(1);
        assert(pending =~= seq![pending[0]] + rest);
        lemma_elsewhere_first(pending[0], rest, slug);
        let kept = elsewhere(rest, slug);
        if x != slug {
            assert((seq![pending[0]] + kept).skip(1) =~= kept);
        }
        if seen.contains(x) || !h.dom().contains(x) {
            lemma_walk_elsewhere(g, slug, head, rest, seen);
        } else {
            lemma_fewer_left(h, seen, x);
            let more = at_depth(children(h, Some(x)), depth + 1);
            lemma_walk_elsewhere(g, slug, head, more + rest, seen.insert(x));
            let tail = walked(h, more + rest, seen.insert(x));
            lemma_elsewhere_first(pending[0], tail, slug);
            lemma_children_elsewhere(g, slug, head, Some(x));
            let p = other_than(slug);
            Seq::filter_distributes_over_add(more, rest, p);
            if x == slug {
                assert(more =~= Seq::<Stop>::empty());
                assert(more + rest =~= rest);
                assert(seen.insert(x).remove(slug) =~= been);
            } else {
                lemma_elsewhere_at_depth(children(h, Some(x)), depth + 1, slug);
                assert(seen.insert(x).remove(slug) =~= been.insert(x));
            }
        }
    }
}

/// To add a head that nothing is read under does not change the order in which
/// the others are read, nor how deep they lie.
pub proof fn reading_is_stable_under_insertion(g: Graph, slug: Text, head: HeadView)
    requires
        g.dom().finite(),
        unnamed(g, slug),
        head.parent != Some(slug),
    ensures
        elsewhere(outline(g.insert(slug, head)), slug) == outline(g),
{
    let h = g.insert(slug, head);
    let q = |x: Text| x != slug;
    let p = other_than(slug);
    let roots = at_depth(children(h, None), 0);
    let all = at_depth(order::in_order(h.dom()), 0);
    lemma_walk_elsewhere(g, slug, head, roots + all, Set::empty());
    Seq::filter_distributes_over_add(roots, all, p);
    lemma_elsewhere_at_depth(children(h, None), 0, slug);
    lemma_children_elsewhere(g, slug, head, None);
    lemma_elsewhere_at_depth(order::in_order(h.dom()), 0, slug);
    order::by_text_is_strict();
    order::arrangement_exists(h.dom(), order::by_text());
    let list = order::in_order(h.dom());
    order::lemma_part_ascends(list, q, order::by_text());
    assert forall|x: Text| #[trigger] list.filter(q).contains(x) <==> g.dom().contains(x) by {
        assert(list.contains(x) <==> h.dom().contains(x));
    }
    order::arranged_is(list.filter(q), g.dom(), order::by_text());
    assert(Set::<Text>::empty().remove(slug) =~= Set::<Text>::empty());
}

} // verus!

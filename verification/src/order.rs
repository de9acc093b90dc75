//! Finite sets of text laid out in order.
//!
//! The order in which heads come out of a query is always that of some strict
//! order on slugs. [`arranged`] is the one sequence that lists a set in a given
//! order; the functions below compute it for the order of text.

use vstd::prelude::*;

use crate::text::{self, Text};

verus! {

/// A strict total order on text.
pub open spec fn strict_order(lt: spec_fn(Text, Text) -> bool) -> bool {
    &&& forall|a: Text| !#[trigger] lt(a, a)
    &&& forall|a: Text, b: Text, c: Text| #[trigger] lt(a, b) && #[trigger] lt(b, c) ==> lt(a, c)
    &&& forall|a: Text, b: Text| #[trigger] lt(a, b) || a == b || lt(b, a)
}

/// Every element comes before every later one.
pub open spec fn ascends(list: Seq<Text>, lt: spec_fn(Text, Text) -> bool) -> bool {
    forall|i: int, j: int|
        0 <= i < j < list.len() ==> lt(#[trigger] list[i], #[trigger] list[j])
}

/// `list` holds exactly the elements of `set`, each once, in order.
pub open spec fn arranges(
    list: Seq<Text>,
    set: Set<Text>,
    lt: spec_fn(Text, Text) -> bool,
) -> bool {
    &&& ascends(list, lt)
    &&& forall|x: Text| #[trigger] list.contains(x) <==> set.contains(x)
}

/// The elements of `set`, in order.
pub open spec fn arranged(set: Set<Text>, lt: spec_fn(Text, Text) -> bool) -> Seq<Text> {
    choose|list: Seq<Text>| arranges(list, set, lt)
}

/// The order of text, as a relation to hand to [`arranged`].
pub open spec fn by_text() -> spec_fn(Text, Text) -> bool {
    |a: Text, b: Text| text::before(a, b)
}

/// The elements of `set` in the order of text.
pub open spec fn in_order(set: Set<Text>) -> Seq<Text> {
    arranged(set, by_text())
}

pub proof fn by_text_is_strict()
    ensures
        strict_order(by_text()),
{
    let lt = by_text();
    assert forall|a: Text| !#[trigger] lt(a, a) by {
        text::before_irreflexive(a);
    }
    assert forall|a: Text, b: Text, c: Text| #[trigger] lt(a, b) && #[trigger] lt(b, c) implies lt(
        a,
        c,
    ) by {
        text::before_transitive(a, b, c);
    }
    assert forall|a: Text, b: Text| #[trigger] lt(a, b) || a == b || lt(b, a) by {
        text::before_total(a, b);
    }
}

/// A set has at most one arrangement.
pub proof fn arrangement_is_unique(
    p: Seq<Text>,
    q: Seq<Text>,
    set: Set<Text>,
    lt: spec_fn(Text, Text) -> bool,
)
    requires
        strict_order(lt),
        arranges(p, set, lt),
        arranges(q, set, lt),
    ensures
        p == q,
    decreases p.len(),
{
    if p.len() == 0 {
        if q.len() > 0 {
            assert(q.contains(q[0]));
            assert(p.contains(q[0]));
        }
        assert(p =~= q);
    } else {
        assert(p.contains(p[0]));
        assert(q.contains(p[0]));
        let j = choose|j: int| 0 <= j < q.len() && q[j] == p[0];
        assert(q.contains(q[0]));
        assert(p.contains(q[0]));
        let i = choose|i: int| 0 <= i < p.len() && p[i] == q[0];
        if p[0] != q[0] {
            assert(lt(p[0], p[i]));
            assert(lt(q[0], q[j]));
            assert(lt(p[0], p[0]));
        }
        lemma_drop_first(p, set, lt);
        lemma_drop_first(q, set, lt);
        arrangement_is_unique(p.drop_first(), q.drop_first(), set.remove(p[0]), lt);
        assert(p =~= seq![p[0]] + p.drop_first());
        assert(q =~= seq![q[0]] + q.drop_first());
    }
}

pub proof fn lemma_drop_first(p: Seq<Text>, set: Set<Text>, lt: spec_fn(Text, Text) -> bool)
    requires
        strict_order(lt),
        arranges(p, set, lt),
        p.len() > 0,
    ensures
        arranges(p.drop_first(), set.remove(p[0]), lt),
{
    let rest = p.drop_first();
    assert forall|x: Text| #[trigger] rest.contains(x) <==> set.remove(p[0]).contains(x) by {
        if rest.contains(x) {
            let k = choose|k: int| 0 <= k < rest.len() && rest[k] == x;
            assert(p[k + 1] == x);
            assert(p.contains(x));
            assert(lt(p[0], p[k + 1]));
        }
        if set.remove(p[0]).contains(x) {
            assert(p.contains(x));
            let k = choose|k: int| 0 <= k < p.len() && p[k] == x;
            assert(rest[k - 1] == x);
        }
    }
}

/// The place at which a new element keeps a list in order.
pub proof fn lemma_place(list: Seq<Text>, x: Text, lt: spec_fn(Text, Text) -> bool) -> (at: int)
    requires
        strict_order(lt),
        ascends(list, lt),
        !list.contains(x),
    ensures
        0 <= at <= list.len(),
        forall|i: int| 0 <= i < at ==> lt(#[trigger] list[i], x),
        forall|i: int| at <= i < list.len() ==> lt(x, #[trigger] list[i]),
    decreases list.len(),
{
    if list.len() == 0 {
        0
    } else {
        let last = list.last();
        assert(list.contains(last));
        assert(lt(last, x) || last == x || lt(x, last));
        if lt(last, x) {
            assert forall|i: int| 0 <= i < list.len() implies lt(#[trigger] list[i], x) by {
                if i < list.len() - 1 {
                    assert(lt(list[i], last));
                }
            }
            list.len() as int
        } else {
            let front = list.drop_last();
            assert forall|y: Text| front.contains(y) implies list.contains(y) by {
                let k = choose|k: int| 0 <= k < front.len() && front[k] == y;
                assert(list[k] == y);
            }
            let at = lemma_place(front, x, lt);
            assert forall|i: int| 0 <= i < at implies lt(#[trigger] list[i], x) by {
                assert(front[i] == list[i]);
            }
            assert forall|i: int| at <= i < list.len() implies lt(x, #[trigger] list[i]) by {
                if i < front.len() {
                    assert(front[i] == list[i]);
                }
            }
            at
        }
    }
}

/// A list stays in order when a new element is put in its place.
pub proof fn lemma_insert(
    list: Seq<Text>,
    set: Set<Text>,
    at: int,
    x: Text,
    lt: spec_fn(Text, Text) -> bool,
)
    requires
        arranges(list, set, lt),
        0 <= at <= list.len(),
        forall|i: int| 0 <= i < at ==> lt(#[trigger] list[i], x),
        forall|i: int| at <= i < list.len() ==> lt(x, #[trigger] list[i]),
    ensures
        arranges(list.insert(at, x), set.insert(x), lt),
{
    let longer = list.insert(at, x);
    assert forall|i: int, j: int| 0 <= i < j < longer.len() implies lt(
        #[trigger] longer[i],
        #[trigger] longer[j],
    ) by {
        if i < at {
            assert(longer[i] == list[i]);
        } else if i > at {
            assert(longer[i] == list[i - 1]);
        }
        if j < at {
            assert(longer[j] == list[j]);
        } else if j > at {
            assert(longer[j] == list[j - 1]);
        }
    }
    assert forall|y: Text| #[trigger] longer.contains(y) <==> set.insert(x).contains(y) by {
        if longer.contains(y) {
            let k = choose|k: int| 0 <= k < longer.len() && longer[k] == y;
            if k < at {
                assert(list[k] == y);
                assert(list.contains(y));
            } else if k > at {
                assert(list[k - 1] == y);
                assert(list.contains(y));
            }
        }
        if set.insert(x).contains(y) {
            if y == x {
                assert(longer[at] == y);
            } else {
                assert(list.contains(y));
                let k = choose|k: int| 0 <= k < list.len() && list[k] == y;
                if k < at {
                    assert(longer[k] == y);
                } else {
                    assert(longer[k + 1] == y);
                }
            }
        }
    }
}

/// Every finite set has an arrangement.
pub proof fn arrangement_exists(set: Set<Text>, lt: spec_fn(Text, Text) -> bool)
    requires
        strict_order(lt),
        set.finite(),
    ensures
        arranges(arranged(set, lt), set, lt),
    decreases set.len(),
{
    if set.len() == 0 {
        assert(set =~= Set::empty());
        assert(arranges(Seq::<Text>::empty(), set, lt));
    } else {
        let x = set.choose();
        let rest = set.remove(x);
        arrangement_exists(rest, lt);
        let list = arranged(rest, lt);
        assert(!list.contains(x));
        let at = lemma_place(list, x, lt);
        lemma_insert(list, rest, at, x, lt);
        assert(rest.insert(x) =~= set);
        assert(arranges(list.insert(at, x), set, lt));
    }
}

/// A list that arranges a set is its arrangement.
pub proof fn arranged_is(list: Seq<Text>, set: Set<Text>, lt: spec_fn(Text, Text) -> bool)
    requires
        strict_order(lt),
        arranges(list, set, lt),
    ensures
        arranged(set, lt) == list,
{
    arrangement_is_unique(arranged(set, lt), list, set, lt);
}

/// No element of an arrangement is repeated.
pub proof fn arranged_has_no_duplicates(list: Seq<Text>, lt: spec_fn(Text, Text) -> bool)
    requires
        strict_order(lt),
        ascends(list, lt),
    ensures
        list.no_duplicates(),
{
    assert forall|i: int, j: int| 0 <= i < list.len() && 0 <= j < list.len() && i != j implies list[i]
        != list[j] by {
        if i < j {
            assert(lt(list[i], list[j]));
        } else {
            assert(lt(list[j], list[i]));
        }
    }
}

/// Puts `x` in its place in a list that is in the order of text, unless it is
/// there already.
pub fn insert_in_order(list: &mut Vec<String>, x: String)
    requires
        ascends(text::texts(old(list)@), by_text()),
    ensures
        text::texts(final(list)@) == in_order(text::texts(old(list)@).to_set().insert(x@)),
        ascends(text::texts(final(list)@), by_text()),
        text::texts(final(list)@).to_set() == text::texts(old(list)@).to_set().insert(x@),
{
    let ghost lt = by_text();
    let ghost start = text::texts(list@);
    let ghost set = start.to_set();
    proof {
        by_text_is_strict();
        assert(arranges(start, set, lt));
    }
    let mut at: usize = 0;
    while at < list.len() && text::is_before(list[at].as_str(), x.as_str())
        invariant
            at <= list@.len(),
            list@ == old(list)@,
            start == text::texts(old(list)@),
            lt == by_text(),
            forall|i: int| 0 <= i < at ==> lt(#[trigger] start[i], x@),
        decreases list@.len() - at,
    {
        assert(start[at as int] == list@[at as int]@);
        at = at + 1;
    }
    if at < list.len() && text::same(list[at].as_str(), x.as_str()) {
        proof {
            assert(start[at as int] == list@[at as int]@);
            assert(start.contains(x@));
            assert(set.insert(x@) =~= set);
            arranged_is(start, set, lt);
        }
        return ;
    }
    proof {
        if at < list@.len() {
            assert(start[at as int] == list@[at as int]@);
            assert(!lt(start[at as int], x@));
            assert(lt(x@, start[at as int]));
        }
        assert forall|i: int| at <= i < start.len() implies lt(x@, #[trigger] start[i]) by {
            if i > at {
                assert(lt(start[at as int], start[i]));
            }
        }
        lemma_insert(start, set, at as int, x@, lt);
        assert(text::texts(list@.insert(at as int, x)) =~= start.insert(at as int, x@));
        arranged_is(start.insert(at as int, x@), set.insert(x@), lt);
        assert(start.insert(at as int, x@).to_set() =~= set.insert(x@));
    }
    list.insert(at, x);
}

/// The given texts in order, each once.
pub fn canonical(list: Vec<String>) -> (out: Vec<String>)
    ensures
        text::texts(out@) == in_order(text::texts(list@).to_set()),
        ascends(text::texts(out@), by_text()),
        text::texts(out@).to_set() == text::texts(list@).to_set(),
{
    let mut out: Vec<String> = Vec::new();
    let ghost all = text::texts(list@);
    proof {
        by_text_is_strict();
        assert(text::texts(out@) =~= Seq::<Text>::empty());
        assert(all.take(0).to_set() =~= Set::<Text>::empty());
        assert(text::texts(out@).to_set() =~= Set::<Text>::empty());
        arranged_is(text::texts(out@), Set::<Text>::empty(), by_text());
    }
    for i in 0..list.len()
        invariant
            all == text::texts(list@),
            ascends(text::texts(out@), by_text()),
            text::texts(out@) == in_order(all.take(i as int).to_set()),
            text::texts(out@).to_set() == all.take(i as int).to_set(),
    {
        insert_in_order(&mut out, list[i].clone());
        proof {
            assert(all[i as int] == list@[i as int]@);
            lemma_take_one_more(all, i as int);
        }
    }
    assert(all.take(list@.len() as int) =~= all);
    out
}

pub proof fn lemma_take_one_more(all: Seq<Text>, i: int)
    requires
        0 <= i < all.len(),
    ensures
        all.take(i + 1).to_set() == all.take(i).to_set().insert(all[i]),
{
    let longer = all.take(i + 1);
    assert forall|x: Text| longer.to_set().contains(x) <==> all.take(i).to_set().insert(
        all[i],
    ).contains(x) by {
        if longer.contains(x) {
            let k = choose|k: int| 0 <= k < longer.len() && longer[k] == x;
            if k < i {
                assert(all.take(i)[k] == x);
                assert(all.take(i).contains(x));
            }
        }
        if all.take(i).contains(x) {
            let k = choose|k: int| 0 <= k < i && all.take(i)[k] == x;
            assert(longer[k] == x);
        }
        if x == all[i] {
            assert(longer[i] == x);
        }
    }
    assert(longer.to_set() =~= all.take(i).to_set().insert(all[i]));
}

// ---------------------------------------------------------------------------
// Parts of a list
// ---------------------------------------------------------------------------

/// What a list keeps was in it.
pub proof fn lemma_kept_is_listed(all: Seq<Text>, p: spec_fn(Text) -> bool, x: Text)
    requires
        all.filter(p).contains(x),
    ensures
        all.contains(x),
        p(x),
    decreases all.len(),
{
    reveal(Seq::filter);
    if all.len() > 0 {
        let kept = all.filter(p);
        let i = choose|i: int| 0 <= i < kept.len() && kept[i] == x;
        if p(all.last()) && i == kept.len() - 1 {
            assert(all[all.len() - 1] == x);
        } else {
            assert(all.drop_last().filter(p)[i] == x);
            lemma_kept_is_listed(all.drop_last(), p, x);
            let j = choose|j: int| 0 <= j < all.len() - 1 && all.drop_last()[j] == x;
            assert(all[j] == x);
        }
    }
}

/// A part of a list that is in order is in order.
pub proof fn lemma_part_ascends(
    list: Seq<Text>,
    p: spec_fn(Text) -> bool,
    lt: spec_fn(Text, Text) -> bool,
)
    requires
        ascends(list, lt),
    ensures
        ascends(list.filter(p), lt),
        forall|x: Text| #[trigger] list.filter(p).contains(x) <==> list.contains(x) && p(x),
    decreases list.len(),
{
    reveal(Seq::filter);
    let part = list.filter(p);
    assert forall|x: Text| #[trigger] part.contains(x) <==> list.contains(x) && p(x) by {
        if part.contains(x) {
            lemma_kept_is_listed(list, p, x);
        }
        if list.contains(x) && p(x) {
            let i = choose|i: int| 0 <= i < list.len() && list[i] == x;
            list.lemma_filter_contains(p, i);
        }
    }
    if list.len() > 0 {
        let front = list.drop_last();
        lemma_part_ascends(front, p, lt);
        if p(list.last()) {
            assert forall|i: int, j: int| 0 <= i < j < part.len() implies lt(
                #[trigger] part[i],
                #[trigger] part[j],
            ) by {
                assert(part[i] == front.filter(p)[i]);
                if j < front.filter(p).len() {
                    assert(part[j] == front.filter(p)[j]);
                } else {
                    assert(front.filter(p).contains(part[i]));
                    let k = choose|k: int| 0 <= k < front.len() && front[k] == part[i];
                    assert(lt(list[k], list[list.len() - 1]));
                }
            }
        }
    }
}

} // verus!

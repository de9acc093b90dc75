//! The heads of a tree: a map from slug to head that is walked in the order of
//! slugs.

use vstd::prelude::*;

use crate::model::{Graph, Head, HeadView};
use crate::order;
use crate::text::{self, Text};

verus! {

pub open spec fn head_views(list: Seq<Head>) -> Seq<HeadView> {
    list.map_values(|h: Head| h@)
}

/// The map that takes the `i`th key to the `i`th value.
pub open spec fn zipped(keys: Seq<Text>, values: Seq<HeadView>) -> Graph {
    Map::new(|k: Text| keys.contains(k), |k: Text| values[keys.index_of(k)])
}

/// Two lists of the same length: the slugs in ascending order, and the head
/// filed under each. The slug it is filed under is what identifies a head.
#[derive(Debug, PartialEq, Eq)]
pub struct Heads {
    slugs: Vec<String>,
    heads: Vec<Head>,
}

impl View for Heads {
    type V = Graph;

    open spec fn view(&self) -> Graph {
        zipped(self.keys(), self.values())
    }
}

pub proof fn lemma_zipped(keys: Seq<Text>, values: Seq<HeadView>)
    requires
        keys.len() == values.len(),
        order::ascends(keys, order::by_text()),
    ensures
        forall|i: int|
            #![trigger keys[i]]
            0 <= i < keys.len() ==> zipped(keys, values).dom().contains(keys[i]) && zipped(
                keys,
                values,
            )[keys[i]] == values[i],
        zipped(keys, values).dom() == keys.to_set(),
        zipped(keys, values).dom().finite(),
        zipped(keys, values).dom().len() == keys.len(),
        order::arranges(keys, zipped(keys, values).dom(), order::by_text()),
        keys == order::in_order(zipped(keys, values).dom()),
{
    order::by_text_is_strict();
    order::arranged_has_no_duplicates(keys, order::by_text());
    let g = zipped(keys, values);
    assert forall|i: int| #![trigger keys[i]] 0 <= i < keys.len() implies g.dom().contains(keys[i])
        && g[keys[i]] == values[i] by {
        assert(keys.contains(keys[i]));
        let j = keys.index_of(keys[i]);
        assert(0 <= j < keys.len() && keys[j] == keys[i]);
    }
    assert(g.dom() =~= keys.to_set());
    keys.unique_seq_to_set();
    order::arranged_is(keys, g.dom(), order::by_text());
}

impl Heads {
    /// The slugs, in order.
    pub closed spec fn keys(self) -> Seq<Text> {
        text::texts(self.slugs@)
    }

    /// The heads, in the order of their slugs.
    pub closed spec fn values(self) -> Seq<HeadView> {
        head_views(self.heads@)
    }

    #[verifier::type_invariant]
    pub open spec fn wf(self) -> bool {
        &&& self.keys().len() == self.values().len()
        &&& order::ascends(self.keys(), order::by_text())
    }

    pub fn new() -> (r: Self)
        ensures
            r@ == Map::<Text, HeadView>::empty(),
    {
        let r = Heads { slugs: Vec::new(), heads: Vec::new() };
        assert(r@ =~= Map::<Text, HeadView>::empty());
        r
    }

    pub fn len(&self) -> (r: usize)
        ensures
            r == self@.dom().len(),
            r == self.keys().len(),
            self@.dom().finite(),
    {
        proof {
            use_type_invariant(self);
            lemma_zipped(self.keys(), self.values());
        }
        self.slugs.len()
    }

    pub fn is_empty(&self) -> (r: bool)
        ensures
            r == (self@.dom() =~= Set::empty()),
    {
        proof {
            use_type_invariant(self);
            lemma_zipped(self.keys(), self.values());
        }
        let r = self.slugs.len() == 0;
        proof {
            if !r {
                assert(self@.dom().contains(self.keys()[0]));
            }
        }
        r
    }

    /// The `i`th slug, in order.
    pub fn key_at(&self, i: usize) -> (r: &String)
        requires
            i < self.keys().len(),
        ensures
            r@ == self.keys()[i as int],
            self@.dom().contains(r@),
            self@[r@] == self.values()[i as int],
    {
        proof {
            use_type_invariant(self);
            lemma_zipped(self.keys(), self.values());
            assert(self.keys()[i as int] == self.slugs@[i as int]@);
        }
        &self.slugs[i]
    }

    /// The head filed under the `i`th slug.
    pub fn value_at(&self, i: usize) -> (r: &Head)
        requires
            i < self.keys().len(),
        ensures
            r@ == self.values()[i as int],
            self@.dom().contains(self.keys()[i as int]),
            self@[self.keys()[i as int]] == r@,
    {
        proof {
            use_type_invariant(self);
            lemma_zipped(self.keys(), self.values());
            assert(self.values()[i as int] == self.heads@[i as int]@);
            assert(self.keys()[i as int] == self.slugs@[i as int]@);
        }
        &self.heads[i]
    }

    /// Where `slug` is filed, or else where it would be.
    fn search(&self, slug: &str) -> (r: (bool, usize))
        ensures
            r.1 <= self.keys().len(),
            r.0 == self@.dom().contains(slug@),
            r.0 ==> r.1 < self.keys().len() && self.keys()[r.1 as int] == slug@,
            forall|i: int| 0 <= i < r.1 ==> text::before(#[trigger] self.keys()[i], slug@),
            !r.0 ==> forall|i: int|
                r.1 <= i < self.keys().len() ==> text::before(slug@, #[trigger] self.keys()[i]),
    {
        proof {
            use_type_invariant(self);
            lemma_zipped(self.keys(), self.values());
            order::by_text_is_strict();
        }
        let ghost lt = order::by_text();
        let mut at: usize = 0;
        while at < self.slugs.len() && text::is_before(self.slugs[at].as_str(), slug)
            invariant
                at <= self.slugs@.len(),
                self.wf(),
                forall|i: int| 0 <= i < at ==> text::before(#[trigger] self.keys()[i], slug@),
            decreases self.slugs@.len() - at,
        {
            assert(self.keys()[at as int] == self.slugs@[at as int]@);
            at = at + 1;
        }
        if at < self.slugs.len() && text::same(self.slugs[at].as_str(), slug) {
            assert(self.keys()[at as int] == slug@);
            return (true, at);
        }
        proof {
            let keys = self.keys();
            if at < keys.len() {
                assert(keys[at as int] == self.slugs@[at as int]@);
                text::before_total(keys[at as int], slug@);
            }
            assert forall|i: int| at <= i < keys.len() implies text::before(
                slug@,
                #[trigger] keys[i],
            ) by {
                if i > at {
                    assert(lt(keys[at as int], keys[i]));
                    text::before_transitive(slug@, keys[at as int], keys[i]);
                }
            }
            if keys.contains(slug@) {
                let i = choose|i: int| 0 <= i < keys.len() && keys[i] == slug@;
                text::before_irreflexive(slug@);
                assert(text::before(keys[i], slug@) || text::before(slug@, keys[i]));
            }
        }
        (false, at)
    }

    pub fn contains_key(&self, slug: &str) -> (r: bool)
        ensures
            r == self@.dom().contains(slug@),
    {
        self.search(slug).0
    }

    pub fn get(&self, slug: &str) -> (r: Option<&Head>)
        ensures
            r is Some <==> self@.dom().contains(slug@),
            r matches Some(head) ==> head@ == self@[slug@],
    {
        let (found, at) = self.search(slug);
        if found {
            Some(self.value_at(at))
        } else {
            None
        }
    }

    pub fn get_mut(&mut self, slug: &str) -> (r: Option<&mut Head>)
        ensures
            r is Some <==> old(self)@.dom().contains(slug@),
            r matches Some(head) ==> {
                &&& (*head)@ == old(self)@[slug@]
                &&& final(self)@ == old(self)@.insert(slug@, (*final(head))@)
            },
            r is None ==> final(self)@ == old(self)@,
    {
        let (found, at) = self.search(slug);
        proof {
            use_type_invariant(&*self);
            lemma_zipped(self.keys(), self.values());
            assert forall|head: Head|
                found implies #[trigger] zipped(
                self.keys(),
                head_views(self.heads@.update(at as int, head)),
            ) == self@.insert(slug@, head@) by {
                let values = head_views(self.heads@.update(at as int, head));
                lemma_zipped(self.keys(), values);
                let g = zipped(self.keys(), values);
                assert(g.dom() =~= self@.insert(slug@, head@).dom());
                assert forall|k: Text| g.dom().contains(k) implies g[k] == self@.insert(
                    slug@,
                    head@,
                )[k] by {
                    let i = choose|i: int| 0 <= i < self.keys().len() && self.keys()[i] == k;
                    assert(self@[self.keys()[i]] == self.values()[i]);
                    assert(g[self.keys()[i]] == values[i]);
                }
                assert(g =~= self@.insert(slug@, head@));
            }
            assert(found ==> self.values()[at as int] == self.heads@[at as int]@);
        }
        if found {
            Some(&mut self.heads[at])
        } else {
            None
        }
    }

    /// Files `head` under `slug` and hands back what was there.
    pub fn insert(&mut self, slug: String, head: Head) -> (r: Option<Head>)
        ensures
            final(self)@ == old(self)@.insert(slug@, head@),
            r is Some <==> old(self)@.dom().contains(slug@),
            r matches Some(head) ==> head@ == old(self)@[slug@],
    {
        let (found, at) = self.search(slug.as_str());
        proof {
            use_type_invariant(&*self);
            lemma_zipped(self.keys(), self.values());
        }
        let mut taken = Heads::new();
        std::mem::swap(self, &mut taken);
        let Heads { mut slugs, mut heads } = taken;
        let ghost keys = text::texts(slugs@);
        let ghost values = head_views(heads@);
        if found {
            proof {
                assert(values[at as int] == heads@[at as int]@);
            }
            let ghost value = head@;
            let mut swapped = head;
            std::mem::swap(&mut heads[at], &mut swapped);
            proof {
                assert(head_views(heads@) =~= values.update(at as int, value));
                lemma_update(keys, values, at as int, value);
            }
            *self = Heads { slugs, heads };
            Some(swapped)
        } else {
            let ghost key = slug@;
            proof {
                assert(text::texts(slugs@.insert(at as int, slug)) =~= keys.insert(at as int, key));
                assert(head_views(heads@.insert(at as int, head)) =~= values.insert(
                    at as int,
                    head@,
                ));
                lemma_inserted(keys, values, at as int, key, head@);
            }
            slugs.insert(at, slug);
            heads.insert(at, head);
            *self = Heads { slugs, heads };
            None
        }
    }

    /// Takes out the head filed under `slug`.
    pub fn remove(&mut self, slug: &str) -> (r: Option<Head>)
        ensures
            final(self)@ == old(self)@.remove(slug@),
            r is Some <==> old(self)@.dom().contains(slug@),
            r matches Some(head) ==> head@ == old(self)@[slug@],
    {
        let (found, at) = self.search(slug);
        proof {
            use_type_invariant(&*self);
            lemma_zipped(self.keys(), self.values());
        }
        if !found {
            assert(self@ =~= self@.remove(slug@));
            return None;
        }
        let mut taken = Heads::new();
        std::mem::swap(self, &mut taken);
        let Heads { mut slugs, mut heads } = taken;
        let ghost keys = text::texts(slugs@);
        let ghost values = head_views(heads@);
        proof {
            assert(values[at as int] == heads@[at as int]@);
            assert(text::texts(slugs@.remove(at as int)) =~= keys.remove(at as int));
            assert(head_views(heads@.remove(at as int)) =~= values.remove(at as int));
            lemma_removed(keys, values, at as int);
        }
        slugs.remove(at);
        let out = heads.remove(at);
        *self = Heads { slugs, heads };
        Some(out)
    }
}

proof fn lemma_update(keys: Seq<Text>, values: Seq<HeadView>, at: int, value: HeadView)
    requires
        keys.len() == values.len(),
        order::ascends(keys, order::by_text()),
        0 <= at < keys.len(),
    ensures
        zipped(keys, values.update(at, value)) == zipped(keys, values).insert(keys[at], value),
{
    let after = values.update(at, value);
    lemma_zipped(keys, values);
    lemma_zipped(keys, after);
    let g = zipped(keys, after);
    let want = zipped(keys, values).insert(keys[at], value);
    assert(keys.contains(keys[at]));
    assert(g.dom() =~= want.dom());
    assert forall|k: Text| g.dom().contains(k) implies g[k] == want[k] by {
        let i = choose|i: int| 0 <= i < keys.len() && keys[i] == k;
        assert(zipped(keys, values)[keys[i]] == values[i]);
        assert(g[keys[i]] == after[i]);
    }
    assert(g =~= want);
}

proof fn lemma_inserted(
    keys: Seq<Text>,
    values: Seq<HeadView>,
    at: int,
    key: Text,
    value: HeadView,
)
    requires
        keys.len() == values.len(),
        order::ascends(keys, order::by_text()),
        0 <= at <= keys.len(),
        forall|i: int| 0 <= i < at ==> text::before(#[trigger] keys[i], key),
        forall|i: int| at <= i < keys.len() ==> text::before(key, #[trigger] keys[i]),
    ensures
        order::ascends(keys.insert(at, key), order::by_text()),
        zipped(keys.insert(at, key), values.insert(at, value)) == zipped(keys, values).insert(
            key,
            value,
        ),
{
    order::by_text_is_strict();
    let lt = order::by_text();
    lemma_zipped(keys, values);
    assert forall|i: int| 0 <= i < at implies lt(#[trigger] keys[i], key) by {}
    assert forall|i: int| at <= i < keys.len() implies lt(key, #[trigger] keys[i]) by {}
    order::lemma_insert(keys, keys.to_set(), at, key, lt);
    let k2 = keys.insert(at, key);
    let v2 = values.insert(at, value);
    lemma_zipped(k2, v2);
    let g = zipped(k2, v2);
    let want = zipped(keys, values).insert(key, value);
    assert(g.dom() =~= want.dom());
    assert(!keys.contains(key)) by {
        if keys.contains(key) {
            let i = choose|i: int| 0 <= i < keys.len() && keys[i] == key;
            assert(lt(keys[i], key) || lt(key, keys[i]));
        }
    }
    assert forall|k: Text| g.dom().contains(k) implies g[k] == want[k] by {
        let i = choose|i: int| 0 <= i < k2.len() && k2[i] == k;
        assert(g[k2[i]] == v2[i]);
        if i < at {
            assert(k2[i] == keys[i]);
        } else if i > at {
            assert(k2[i] == keys[i - 1]);
        }
    }
    assert(g =~= want);
}

proof fn lemma_removed(keys: Seq<Text>, values: Seq<HeadView>, at: int)
    requires
        keys.len() == values.len(),
        order::ascends(keys, order::by_text()),
        0 <= at < keys.len(),
    ensures
        order::ascends(keys.remove(at), order::by_text()),
        zipped(keys.remove(at), values.remove(at)) == zipped(keys, values).remove(keys[at]),
{
    order::by_text_is_strict();
    let lt = order::by_text();
    lemma_zipped(keys, values);
    let k2 = keys.remove(at);
    let v2 = values.remove(at);
    assert forall|i: int, j: int| 0 <= i < j < k2.len() implies lt(
        #[trigger] k2[i],
        #[trigger] k2[j],
    ) by {
        let a = if i < at { i } else { i + 1 };
        let b = if j < at { j } else { j + 1 };
        assert(k2[i] == keys[a]);
        assert(k2[j] == keys[b]);
    }
    lemma_zipped(k2, v2);
    let g = zipped(k2, v2);
    let want = zipped(keys, values).remove(keys[at]);
    assert forall|k: Text| g.dom().contains(k) <==> want.dom().contains(k) by {
        if k2.contains(k) {
            let i = choose|i: int| 0 <= i < k2.len() && k2[i] == k;
            let a = if i < at { i } else { i + 1 };
            assert(keys[a] == k);
            assert(lt(keys[a], keys[at]) || lt(keys[at], keys[a]));
        }
        if want.dom().contains(k) {
            let a = choose|a: int| 0 <= a < keys.len() && keys[a] == k;
            let i = if a < at { a } else { a - 1 };
            assert(k2[i] == k);
        }
    }
    assert(g.dom() =~= want.dom());
    assert forall|k: Text| g.dom().contains(k) implies g[k] == want[k] by {
        let i = choose|i: int| 0 <= i < k2.len() && k2[i] == k;
        let a = if i < at { i } else { i + 1 };
        assert(g[k2[i]] == v2[i]);
        assert(k2[i] == keys[a]);
        assert(v2[i] == values[a]);
    }
    assert(g =~= want);
}

impl Clone for Heads {
    fn clone(&self) -> (r: Self)
        ensures
            r@ == self@,
    {
        proof {
            use_type_invariant(self);
        }
        let slugs = text::clone_texts(&self.slugs);
        let mut heads: Vec<Head> = Vec::new();
        for i in 0..self.heads.len()
            invariant
                heads@.len() == i,
                forall|j: int| 0 <= j < i ==> (#[trigger] heads@[j])@ == self.heads@[j]@,
        {
            heads.push(self.heads[i].clone());
        }
        assert(head_views(heads@) =~= head_views(self.heads@));
        Heads { slugs, heads }
    }
}

} // verus!

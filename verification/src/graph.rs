//! Operations on a tree in memory.
//!
//! Every operation checks the whole write before it changes anything, so one
//! that is refused leaves the tree as it was. What an operation refuses, and why,
//! is a spec function of its own; its contract says that exactly those requests
//! come back as errors, and what the tree is after all others.

use vstd::prelude::*;

use ulid::Ulid;

use crate::cascade;
use crate::error::{Error, ErrorView};
pub use crate::error::Edge;
use crate::model::{
    self, Answer, AnswerView, Graph, Head, HeadView, Rejected, Status, Timestamp, Tree,
};
use crate::order;
use crate::slug as slugs;
use crate::state;
use crate::text::{self, Text};
use crate::walk;

verus! {

/// The text of the answer that a cauterised head is given. The field
/// `cauterised_by` is what tells such a head; this is what a reader sees.
pub const CAUTERISED: &'static str = "cauterised";

// ---------------------------------------------------------------------------
// Arguments
// ---------------------------------------------------------------------------

#[derive(Debug, Default)]
pub struct Sprout<'a> {
    pub question: &'a str,
    /// `None` is a root.
    pub parent: Option<&'a str>,
    pub blocked_by: &'a [&'a str],
    /// Derived from `question` where it is not given.
    pub slug: Option<&'a str>,
}

pub struct SproutView {
    pub question: Text,
    pub parent: Option<Text>,
    pub blocked_by: Seq<Text>,
    pub slug: Option<Text>,
}

impl<'a> View for Sprout<'a> {
    type V = SproutView;

    open spec fn view(&self) -> SproutView {
        SproutView {
            question: self.question@,
            parent: text::optional_str(self.parent),
            blocked_by: text::str_texts(self.blocked_by@),
            slug: text::optional_str(self.slug),
        }
    }
}

#[derive(Debug, Default)]
pub struct Cut<'a> {
    pub slug: &'a str,
    pub answer: &'a str,
    pub rationale: Option<&'a str>,
    pub rejected: Vec<Rejected>,
    pub keep_subtree: bool,
    /// Lets an answer through that blockers hold back, and nothing else.
    pub force: bool,
}

#[derive(Debug, Default)]
pub struct Cauterise<'a> {
    pub slug: &'a str,
    /// The answered head whose answer killed this question.
    pub by: &'a str,
    /// Becomes the rationale of the answer.
    pub why: Option<&'a str>,
    /// Lets `by` be unanswered, and nothing else.
    pub force: bool,
}

// ---------------------------------------------------------------------------
// New heads
// ---------------------------------------------------------------------------

/// A base slug with a number behind it.
pub open spec fn suffixed(base: Text, n: nat) -> Text {
    base.push('-') + text::decimal(n)
}

/// The first of `base-n`, `base-(n+1)` and so on that names no head.
pub open spec fn first_free(g: Graph, base: Text, n: nat) -> Option<Text>
    decreases u32::MAX + 1 - n,
{
    if n > u32::MAX {
        None
    } else if !g.dom().contains(suffixed(base, n)) {
        Some(suffixed(base, n))
    } else {
        first_free(g, base, n + 1)
    }
}

/// The slug that a question gets: what is left of it as a slug, with the first
/// free number from 2 on behind it where that is taken.
pub open spec fn derived_slug(g: Graph, question: Text) -> Result<Text, ErrorView> {
    let base = slugs::slug_of(question);
    if !slugs::well_formed(base) {
        Err(ErrorView::MalformedSlug { slug: base })
    } else if !g.dom().contains(base) {
        Ok(base)
    } else {
        match first_free(g, base, 2) {
            Some(slug) => Ok(slug),
            None => Err(ErrorView::DuplicateSlug { slug: base }),
        }
    }
}

/// The slug that a new head is filed under.
pub open spec fn new_slug(g: Graph, args: SproutView) -> Result<Text, ErrorView> {
    match args.slug {
        Some(slug) => if !slugs::well_formed(slug) {
            Err(ErrorView::MalformedSlug { slug })
        } else if g.dom().contains(slug) {
            Err(ErrorView::DuplicateSlug { slug })
        } else {
            Ok(slug)
        },
        None => derived_slug(g, args.question),
    }
}

/// The first of `list` that names no head.
pub open spec fn first_unknown(g: Graph, list: Seq<Text>) -> Option<Text>
    decreases list.len(),
{
    if list.len() == 0 {
        None
    } else if !g.dom().contains(list[0]) {
        Some(list[0])
    } else {
        first_unknown(g, list.skip(1))
    }
}

/// The slug that a request to sprout a head is granted, or what refuses it.
pub open spec fn sprout_outcome(g: Graph, args: SproutView) -> Result<Text, ErrorView> {
    match new_slug(g, args) {
        Err(e) => Err(e),
        Ok(slug) => match args.parent {
            Some(parent) if !g.dom().contains(parent) => Err(
                ErrorView::UnknownParent { slug, parent },
            ),
            _ => match first_unknown(g, args.blocked_by) {
                Some(blocked_by) => Err(ErrorView::UnknownBlocker { slug, blocked_by }),
                None => Ok(slug),
            },
        },
    }
}

/// `slug` names a head under `parent`.
pub open spec fn child_of(g: Graph, parent: Option<Text>, slug: Text) -> bool {
    g.dom().contains(slug) && g[slug].parent == parent
}

/// One more than the highest number among the heads under `parent`, or 1 where
/// there are none.
pub open spec fn is_next_seq(g: Graph, parent: Option<Text>, n: int) -> bool {
    if exists|slug: Text| child_of(g, parent, slug) {
        &&& forall|slug: Text| #[trigger] child_of(g, parent, slug) ==> g[slug].seq < n
        &&& exists|slug: Text| #[trigger] child_of(g, parent, slug) && g[slug].seq == n - 1
    } else {
        n == 1
    }
}

/// The number that puts a head behind all others under `parent`.
pub open spec fn next_seq(g: Graph, parent: Option<Text>) -> int {
    choose|n: int| is_next_seq(g, parent, n)
}

/// There is a number left for one more head under `parent`.
pub open spec fn seats_left(g: Graph, parent: Option<Text>) -> bool {
    forall|slug: Text| #[trigger] child_of(g, parent, slug) ==> g[slug].seq < u32::MAX
}

/// A new open head.
pub open spec fn sprouted(g: Graph, args: SproutView, slug: Text, id: Ulid, at: Timestamp) -> HeadView {
    HeadView {
        id,
        slug,
        question: args.question,
        parent: args.parent,
        seq: next_seq(g, args.parent) as u32,
        blocked_by: order::in_order(args.blocked_by.to_set()),
        status: Status::Open,
        rev: 0,
        created_at: at,
        updated_at: at,
        answer: None,
        prior: None,
    }
}

proof fn lemma_next_seq(g: Graph, parent: Option<Text>, n: int)
    requires
        is_next_seq(g, parent, n),
    ensures
        next_seq(g, parent) == n,
{
    let m = next_seq(g, parent);
    assert(is_next_seq(g, parent, m));
    if exists|slug: Text| child_of(g, parent, slug) {
        let a = choose|slug: Text| #[trigger] child_of(g, parent, slug) && g[slug].seq == n - 1;
        let b = choose|slug: Text| #[trigger] child_of(g, parent, slug) && g[slug].seq == m - 1;
        assert(g[a].seq < m && g[b].seq < n);
    }
}

/// The highest number among the heads under `parent` that `among` holds.
proof fn lemma_highest(g: Graph, parent: Option<Text>, among: Set<Text>) -> (top: Text)
    requires
        among.finite(),
        exists|slug: Text| among.contains(slug) && #[trigger] child_of(g, parent, slug),
    ensures
        among.contains(top),
        child_of(g, parent, top),
        forall|slug: Text|
            among.contains(slug) && #[trigger] child_of(g, parent, slug) ==> g[slug].seq
                <= g[top].seq,
    decreases among.len(),
{
    let one = choose|slug: Text| among.contains(slug) && #[trigger] child_of(g, parent, slug);
    let rest = among.remove(one);
    if exists|slug: Text| rest.contains(slug) && #[trigger] child_of(g, parent, slug) {
        let top = lemma_highest(g, parent, rest);
        if g[one].seq > g[top].seq {
            one
        } else {
            top
        }
    } else {
        one
    }
}

/// In a finite tree there is a number that puts a head behind all others under
/// `parent`.
pub proof fn next_seq_exists(g: Graph, parent: Option<Text>)
    requires
        g.dom().finite(),
    ensures
        is_next_seq(g, parent, next_seq(g, parent)),
{
    if exists|slug: Text| child_of(g, parent, slug) {
        let one = choose|slug: Text| child_of(g, parent, slug);
        assert(g.dom().contains(one) && child_of(g, parent, one));
        let top = lemma_highest(g, parent, g.dom());
        let n = g[top].seq + 1;
        assert(is_next_seq(g, parent, n)) by {
            assert forall|slug: Text| #[trigger] child_of(g, parent, slug) implies g[slug].seq
                < n by {
                assert(g.dom().contains(slug));
            }
        }
    } else {
        assert(is_next_seq(g, parent, 1));
    }
}

/// Whether there is a number left for one more head under `parent`.
pub fn are_seats_left(tree: &Tree, parent: Option<&str>) -> (r: bool)
    ensures
        r == seats_left(tree@.heads, text::optional_str(parent)),
{
    proof {
        use_type_invariant(&tree.heads);
        crate::heads::lemma_zipped(tree.heads.keys(), tree.heads.values());
    }
    let ghost g = tree@.heads;
    let ghost up = text::optional_str(parent);
    let ghost keys = tree.heads.keys();
    let count = tree.heads.len();
    for i in 0..count
        invariant
            g == tree@.heads,
            up == text::optional_str(parent),
            keys == tree.heads.keys(),
            count == keys.len(),
            forall|j: int|
                0 <= j < i && child_of(g, up, #[trigger] keys[j]) ==> g[keys[j]].seq < u32::MAX,
    {
        let head = tree.heads.value_at(i);
        if text::same_option(&head.parent, parent) && head.seq == u32::MAX {
            assert(child_of(g, up, keys[i as int]));
            return false;
        }
    }
    assert forall|slug: Text| #[trigger] child_of(g, up, slug) implies g[slug].seq < u32::MAX by {
        assert(keys.to_set().contains(slug));
        let j = choose|j: int| 0 <= j < keys.len() && keys[j] == slug;
        assert(child_of(g, up, keys[j]));
    }
    true
}

/// The number that puts a head behind all others under `parent`.
fn next_seq_of(tree: &Tree, parent: Option<&str>) -> (r: u32)
    requires
        seats_left(tree@.heads, text::optional_str(parent)),
    ensures
        r == next_seq(tree@.heads, text::optional_str(parent)),
{
    proof {
        use_type_invariant(&tree.heads);
        crate::heads::lemma_zipped(tree.heads.keys(), tree.heads.values());
    }
    let ghost g = tree@.heads;
    let ghost up = text::optional_str(parent);
    let ghost keys = tree.heads.keys();
    let count = tree.heads.len();
    let mut highest: Option<u32> = None;
    for i in 0..count
        invariant
            g == tree@.heads,
            up == text::optional_str(parent),
            keys == tree.heads.keys(),
            count == keys.len(),
            seats_left(g, up),
            match highest {
                None => forall|j: int| 0 <= j < i ==> !child_of(g, up, #[trigger] keys[j]),
                Some(top) => {
                    &&& top < u32::MAX
                    &&& forall|j: int|
                        0 <= j < i && child_of(g, up, #[trigger] keys[j]) ==> g[keys[j]].seq <= top
                    &&& exists|j: int|
                        0 <= j < i && child_of(g, up, #[trigger] keys[j]) && g[keys[j]].seq == top
                },
            },
    {
        let head = tree.heads.value_at(i);
        if text::same_option(&head.parent, parent) {
            assert(child_of(g, up, keys[i as int]));
            highest = match highest {
                Some(top) => if head.seq > top {
                    Some(head.seq)
                } else {
                    Some(top)
                },
                None => Some(head.seq),
            };
        } else {
            assert(!child_of(g, up, keys[i as int]));
        }
    }
    assert forall|slug: Text| #[trigger] child_of(g, up, slug) implies exists|j: int|
        0 <= j < keys.len() && #[trigger] keys[j] == slug by {
        assert(keys.to_set().contains(slug));
    }
    match highest {
        Some(top) => {
            proof {
                lemma_next_seq(g, up, top + 1);
            }
            top + 1
        },
        None => {
            proof {
                lemma_next_seq(g, up, 1);
            }
            1
        },
    }
}

fn with_suffix(base: &String, n: u32) -> (r: String)
    ensures
        r@ == suffixed(base@, n as nat),
{
    let mut out = base.clone();
    out.push('-');
    out.append(text::decimal_of(n as u64).as_str());
    out
}

fn derive_slug(tree: &Tree, question: &str) -> (r: Result<String, Error>)
    ensures
        match r {
            Ok(slug) => derived_slug(tree@.heads, question@) == Ok::<Text, ErrorView>(slug@),
            Err(e) => derived_slug(tree@.heads, question@) == Err::<Text, ErrorView>(e@),
        },
{
    let base = slugs::slugify(question);
    match slugs::validate(base.as_str()) {
        Err(e) => return Err(e),
        Ok(()) => {},
    }
    if !tree.heads.contains_key(base.as_str()) {
        return Ok(base);
    }
    let mut n: u32 = 2;
    loop
        invariant
            2 <= n,
            first_free(tree@.heads, base@, 2) == first_free(tree@.heads, base@, n as nat),
            base@ == slugs::slug_of(question@),
            slugs::well_formed(base@),
            tree@.heads.dom().contains(base@),
        decreases u32::MAX - n,
    {
        let candidate = with_suffix(&base, n);
        if !tree.heads.contains_key(candidate.as_str()) {
            return Ok(candidate);
        }
        if n == u32::MAX {
            assert(first_free(tree@.heads, base@, (n + 1) as nat) is None);
            return Err(Error::DuplicateSlug { slug: base });
        }
        n = n + 1;
    }
}

/// The blockers of a new head in order, each once, or the first that names no
/// head.
fn resolve_blockers(tree: &Tree, slug: &String, blocked_by: &[&str]) -> (r: Result<
    Vec<String>,
    Error,
>)
    ensures
        match (r, first_unknown(tree@.heads, text::str_texts(blocked_by@))) {
            (Ok(edges), None) => text::texts(edges@) == order::in_order(
                text::str_texts(blocked_by@).to_set(),
            ),
            (Err(e), Some(unknown)) => e@ == (ErrorView::UnknownBlocker {
                slug: slug@,
                blocked_by: unknown,
            }),
            _ => false,
        },
{
    let ghost all = text::str_texts(blocked_by@);
    let ghost g = tree@.heads;
    let mut edges: Vec<String> = Vec::new();
    proof {
        assert(all.skip(0) =~= all);
        assert(text::texts(edges@) =~= all.take(0));
    }
    for i in 0..blocked_by.len()
        invariant
            g == tree@.heads,
            all == text::str_texts(blocked_by@),
            text::texts(edges@) == all.take(i as int),
            first_unknown(g, all) == first_unknown(g, all.skip(i as int)),
    {
        let blocker = blocked_by[i];
        proof {
            assert(all[i as int] == blocker@);
            assert(all.skip(i as int)[0] == all[i as int]);
            assert(all.skip(i as int).skip(1) =~= all.skip(i + 1));
            assert(all.take(i + 1) =~= all.take(i as int).push(all[i as int]));
        }
        if !tree.heads.contains_key(blocker) {
            return Err(
                Error::UnknownBlocker { slug: slug.clone(), blocked_by: text::owned(blocker) },
            );
        }
        let edge = text::owned(blocker);
        proof {
            walk::lemma_push_set(edges@, edge);
        }
        edges.push(edge);
    }
    assert(all.take(blocked_by@.len() as int) =~= all);
    Ok(order::canonical(edges))
}

/// The slug that a new head is granted and its blockers, or what refuses it.
pub fn check_sprout(tree: &Tree, args: &Sprout<'_>) -> (r: Result<(String, Vec<String>), Error>)
    ensures
        match r {
            Ok((slug, edges)) => {
                &&& sprout_outcome(tree@.heads, args@) == Ok::<Text, ErrorView>(slug@)
                &&& text::texts(edges@) == order::in_order(args@.blocked_by.to_set())
            },
            Err(e) => sprout_outcome(tree@.heads, args@) == Err::<Text, ErrorView>(e@),
        },
{
    let slug = match args.slug {
        Some(slug) => match slugs::validate(slug) {
            Err(e) => return Err(e),
            Ok(()) => text::owned(slug),
        },
        None => match derive_slug(tree, args.question) {
            Err(e) => return Err(e),
            Ok(slug) => slug,
        },
    };
    if tree.heads.contains_key(slug.as_str()) {
        proof {
            if args@.slug is None {
                lemma_derived_slug_is_free(tree@.heads, args@.question);
            }
        }
        return Err(Error::DuplicateSlug { slug });
    }
    match args.parent {
        Some(parent) => if !tree.heads.contains_key(parent) {
            return Err(Error::UnknownParent { slug, parent: text::owned(parent) });
        },
        None => {},
    }
    let blocked_by = match resolve_blockers(tree, &slug, args.blocked_by) {
        Err(e) => return Err(e),
        Ok(edges) => edges,
    };
    Ok((slug, blocked_by))
}

/// `Ulid::generate` of the `ulid` crate. The identifier rests on the clock and on
/// chance, so nothing is stated of it.
#[verifier::external_body]
fn fresh_id() -> Ulid {
    Ulid::generate()
}

/// A new open head with a fresh identifier, written now. Hands back the slug that
/// it was filed under, which the caller need not have chosen.
pub fn sprout(tree: &mut Tree, args: Sprout<'_>) -> (r: Result<String, Error>)
    requires
        sprout_outcome(old(tree)@.heads, args@) is Ok ==> seats_left(
            old(tree)@.heads,
            args@.parent,
        ),
    ensures
        match r {
            Ok(slug) => {
                let head = final(tree)@.heads[slug@];
                &&& sprout_outcome(old(tree)@.heads, args@) == Ok::<Text, ErrorView>(slug@)
                &&& head == sprouted(old(tree)@.heads, args@, slug@, head.id, head.created_at)
                &&& head.created_at.is_whole()
                &&& head.created_at.in_range()
                &&& final(tree)@ == old(tree)@.with_heads(old(tree)@.heads.insert(slug@, head))
            },
            Err(e) => {
                &&& sprout_outcome(old(tree)@.heads, args@) == Err::<Text, ErrorView>(e@)
                &&& final(tree)@ == old(tree)@
            },
        },
{
    sprout_with(tree, args, fresh_id(), model::now())
}

/// A new open head with the given identifier and time.
pub fn sprout_with(tree: &mut Tree, args: Sprout<'_>, id: Ulid, at: Timestamp) -> (r: Result<
    String,
    Error,
>)
    requires
        sprout_outcome(old(tree)@.heads, args@) is Ok ==> seats_left(
            old(tree)@.heads,
            args@.parent,
        ),
    ensures
        match r {
            Ok(slug) => {
                &&& sprout_outcome(old(tree)@.heads, args@) == Ok::<Text, ErrorView>(slug@)
                &&& final(tree)@ == old(tree)@.with_heads(
                    old(tree)@.heads.insert(
                        slug@,
                        sprouted(old(tree)@.heads, args@, slug@, id, at),
                    ),
                )
            },
            Err(e) => {
                &&& sprout_outcome(old(tree)@.heads, args@) == Err::<Text, ErrorView>(e@)
                &&& final(tree)@ == old(tree)@
            },
        },
{
    let (slug, blocked_by) = match check_sprout(tree, &args) {
        Err(e) => return Err(e),
        Ok(granted) => granted,
    };
    let head = Head {
        id,
        slug: slug.clone(),
        question: text::owned(args.question),
        parent: text::owned_option(args.parent),
        seq: next_seq_of(tree, args.parent),
        blocked_by,
        status: Status::Open,
        rev: 0,
        created_at: at,
        updated_at: at,
        answer: None,
        prior: None,
    };
    tree.heads.insert(slug.clone(), head);
    Ok(slug)
}

proof fn lemma_first_free(g: Graph, base: Text, n: nat)
    ensures
        first_free(g, base, n) matches Some(slug) ==> !g.dom().contains(slug) && exists|k: nat|
            n <= k <= u32::MAX && slug == #[trigger] suffixed(base, k),
    decreases u32::MAX + 1 - n,
{
    if n <= u32::MAX && g.dom().contains(suffixed(base, n)) {
        lemma_first_free(g, base, n + 1);
    }
}

proof fn lemma_suffixed_is_well_formed(base: Text, n: nat)
    requires
        slugs::well_formed(base),
    ensures
        slugs::well_formed(suffixed(base, n)),
{
    lemma_decimal_is_digits(n);
    let slug = suffixed(base, n);
    assert forall|i: int| 0 <= i < slug.len() implies slugs::is_lead(#[trigger] slug[i])
        || slug[i] == '-' by {
        if i < base.len() {
            assert(slug[i] == base[i]);
        } else if i > base.len() {
            assert(slug[i] == text::decimal(n)[i - base.len() - 1]);
        }
    }
    assert(slug[0] == base[0]);
}

proof fn lemma_decimal_is_digits(n: nat)
    ensures
        forall|i: int|
            0 <= i < text::decimal(n).len() ==> slugs::is_lead(#[trigger] text::decimal(n)[i]),
    decreases n,
{
    if n >= 10 {
        lemma_decimal_is_digits(n / 10);
        let all = text::decimal(n);
        let front = text::decimal(n / 10);
        assert forall|i: int| 0 <= i < all.len() implies slugs::is_lead(#[trigger] all[i]) by {
            if i < front.len() {
                assert(all[i] == front[i]);
            }
        }
    }
}

/// The slug that a new head is granted is well formed and was free.
pub proof fn granted_slug(g: Graph, args: SproutView)
    ensures
        sprout_outcome(g, args) matches Ok(slug) ==> slugs::well_formed(slug) && !g.dom().contains(
            slug,
        ),
{
    if args.slug is None {
        let base = slugs::slug_of(args.question);
        lemma_first_free(g, base, 2);
        if sprout_outcome(g, args) is Ok && g.dom().contains(base) {
            let slug = first_free(g, base, 2)->Some_0;
            let k = choose|k: nat| 2 <= k <= u32::MAX && slug == #[trigger] suffixed(base, k);
            lemma_suffixed_is_well_formed(base, k);
        }
    }
}

/// The parent and the blockers of a new head exist.
pub proof fn granted_ends_exist(g: Graph, args: SproutView)
    ensures
        sprout_outcome(g, args) is Ok ==> {
            &&& args.parent matches Some(parent) ==> g.dom().contains(parent)
            &&& forall|x: Text| #[trigger] args.blocked_by.contains(x) ==> g.dom().contains(x)
        },
{
    if sprout_outcome(g, args) is Ok {
        assert forall|x: Text| #[trigger] args.blocked_by.contains(x) implies g.dom().contains(
            x,
        ) by {
            lemma_all_known(g, args.blocked_by, x);
        }
    }
}

proof fn lemma_all_known(g: Graph, list: Seq<Text>, x: Text)
    requires
        first_unknown(g, list) is None,
        list.contains(x),
    ensures
        g.dom().contains(x),
    decreases list.len(),
{
    let i = choose|i: int| 0 <= i < list.len() && list[i] == x;
    if i > 0 {
        assert(list.skip(1)[i - 1] == x);
        lemma_all_known(g, list.skip(1), x);
    }
}

proof fn lemma_derived_slug_is_free(g: Graph, question: Text)
    ensures
        derived_slug(g, question) matches Ok(slug) ==> !g.dom().contains(slug),
{
    lemma_first_free(g, slugs::slug_of(question), 2);
}

// ---------------------------------------------------------------------------
// Answers
// ---------------------------------------------------------------------------

/// A head that has been answered before, so that one more answer is a revision.
/// A prior answer tells as much as the state does: a head that was reopened is
/// open, and what stood on its answer is about to lose its footing all the same.
pub open spec fn answered_before(head: HeadView) -> bool {
    head.status == Status::Answered || head.prior is Some
}

/// The heads that an answer to `slug` reopens.
pub open spec fn cascaded(g: Graph, slug: Text, keep_subtree: bool) -> Set<Text> {
    if answered_before(g[slug]) && !keep_subtree {
        cascade::stale(g, slug)
    } else {
        Set::empty()
    }
}

/// `h` is `g` with `slug` answered and what stood on its last answer reopened.
pub open spec fn answers(
    g: Graph,
    h: Graph,
    slug: Text,
    answer: AnswerView,
    keep_subtree: bool,
) -> bool {
    &&& g[slug].answered(answer).now_is(h[slug])
    &&& cascade::reopens(g.insert(slug, h[slug]), h, cascaded(g, slug, keep_subtree))
}

/// An answer that was given.
pub open spec fn decision(
    answer: Text,
    rationale: Option<Text>,
    rejected: Seq<model::RejectedView>,
) -> AnswerView {
    AnswerView { text: answer, rationale, rejected, cauterised_by: None }
}

/// The answer of a head that the answer of `by` killed.
pub open spec fn killed(by: Text, why: Option<Text>) -> AnswerView {
    AnswerView {
        text: CAUTERISED@,
        rationale: why,
        rejected: Seq::empty(),
        cauterised_by: Some(by),
    }
}

/// What refuses an answer to `slug`.
pub open spec fn cut_refusal(g: Graph, slug: Text, force: bool) -> Option<ErrorView> {
    if !g.dom().contains(slug) {
        Some(ErrorView::UnknownHead { slug })
    } else if !force && state::blocked(g, g[slug]) {
        Some(ErrorView::BlockedCut { slug, blockers: state::unmet_blockers(g, g[slug]) })
    } else {
        None
    }
}

/// What refuses to let the answer of `by` kill `slug`.
pub open spec fn cauterise_refusal(g: Graph, slug: Text, by: Text, force: bool) -> Option<
    ErrorView,
> {
    if !g.dom().contains(slug) {
        Some(ErrorView::UnknownHead { slug })
    } else if !g.dom().contains(by) {
        Some(ErrorView::UnknownHead { slug: by })
    } else if slug == by {
        Some(ErrorView::SelfCauterise { slug })
    } else if !force && g[by].status != Status::Answered {
        Some(ErrorView::CauteriseByUnanswered { slug, by })
    } else {
        None
    }
}

pub open spec fn reopen_refusal(g: Graph, slug: Text) -> Option<ErrorView> {
    if !g.dom().contains(slug) {
        Some(ErrorView::UnknownHead { slug })
    } else if g[slug].status == Status::Open {
        Some(ErrorView::IllegalTransition { slug, from: Status::Open, to: Status::Open })
    } else {
        None
    }
}

fn require_head<'t>(tree: &'t Tree, slug: &str) -> (r: Result<&'t Head, Error>)
    ensures
        match r {
            Ok(head) => tree@.heads.dom().contains(slug@) && head@ == tree@.heads[slug@],
            Err(e) => !tree@.heads.dom().contains(slug@) && e@ == (ErrorView::UnknownHead {
                slug: slug@,
            }),
        },
{
    match tree.heads.get(slug) {
        Some(head) => Ok(head),
        None => Err(Error::UnknownHead { slug: text::owned(slug) }),
    }
}

/// Writing to a head without touching its edges leaves what stands on it.
proof fn lemma_stale_stays(g: Graph, slug: Text, head: HeadView)
    requires
        g.dom().contains(slug),
        head.parent == g[slug].parent,
        head.blocked_by == g[slug].blocked_by,
    ensures
        cascade::stale(g.insert(slug, head), slug) == cascade::stale(g, slug),
{
    let h = g.insert(slug, head);
    assert(h.dom() =~= g.dom());
    walk::same_edges_same_walks(g, h);
    assert(cascade::stale(h, slug) =~= cascade::stale(g, slug));
}

fn answer_head(tree: &mut Tree, slug: &str, answer: Answer, keep_subtree: bool) -> (r: Vec<String>)
    requires
        old(tree)@.heads.dom().contains(slug@),
        old(tree)@.heads[slug@].rev < u32::MAX,
    ensures
        answers(old(tree)@.heads, final(tree)@.heads, slug@, answer@, keep_subtree),
        final(tree)@ == old(tree)@.with_heads(final(tree)@.heads),
        text::texts(r@) == order::in_order(cascaded(old(tree)@.heads, slug@, keep_subtree)),
{
    let ghost g = tree@.heads;
    let mut revision = false;
    match tree.heads.get_mut(slug) {
        Some(head) => {
            revision = head.prior.is_some() || match head.status {
                Status::Answered => true,
                Status::Open => false,
            };
            head.set_answer(answer);
        },
        None => {},
    }
    let ghost mid = tree@.heads;
    proof {
        assert(mid == g.insert(slug@, mid[slug@]));
        lemma_stale_stays(g, slug@, mid[slug@]);
    }
    if revision && !keep_subtree {
        let out = cascade::cascade(tree, slug);
        assert(tree@.heads[slug@] == mid[slug@]) by {
            assert(mid.dom().contains(slug@));
        }
        out
    } else {
        let none: Vec<String> = Vec::new();
        proof {
            order::by_text_is_strict();
            assert(text::texts(none@) =~= Seq::<Text>::empty());
            order::arranged_is(Seq::empty(), Set::<Text>::empty(), order::by_text());
        }
        none
    }
}

/// Refuses an answer to `slug`, or lets it through.
pub fn check_cut(tree: &Tree, slug: &str, force: bool) -> (r: Result<(), Error>)
    ensures
        match r {
            Ok(()) => cut_refusal(tree@.heads, slug@, force) is None,
            Err(e) => cut_refusal(tree@.heads, slug@, force) == Some(e@),
        },
{
    let head = match require_head(tree, slug) {
        Err(e) => return Err(e),
        Ok(head) => head,
    };
    if !force {
        let blockers = state::open_blockers(tree, head);
        proof {
            state::blocked_iff_some_blocker_is_unmet(tree@.heads, head@);
        }
        if blockers.len() > 0 {
            assert(text::texts(blockers@).len() == blockers@.len());
            return Err(Error::BlockedCut { slug: text::owned(slug), blockers });
        }
        assert(text::texts(blockers@).len() == 0);
    }
    Ok(())
}

/// Answers a head. Hands back the heads that a revision reopened, sorted: none
/// for a first answer, nor where the subtree is to be kept.
///
/// To answer an answered head is to revise it.
pub fn cut(tree: &mut Tree, args: Cut<'_>) -> (r: Result<Vec<String>, Error>)
    requires
        cut_refusal(old(tree)@.heads, args.slug@, args.force) is None ==> old(
            tree,
        )@.heads[args.slug@].rev < u32::MAX,
    ensures
        match r {
            Ok(list) => {
                &&& cut_refusal(old(tree)@.heads, args.slug@, args.force) is None
                &&& answers(
                    old(tree)@.heads,
                    final(tree)@.heads,
                    args.slug@,
                    decision(
                        args.answer@,
                        text::optional_str(args.rationale),
                        model::rejections(args.rejected@),
                    ),
                    args.keep_subtree,
                )
                &&& final(tree)@ == old(tree)@.with_heads(final(tree)@.heads)
                &&& text::texts(list@) == order::in_order(
                    cascaded(old(tree)@.heads, args.slug@, args.keep_subtree),
                )
            },
            Err(e) => {
                &&& cut_refusal(old(tree)@.heads, args.slug@, args.force) == Some(e@)
                &&& final(tree)@ == old(tree)@
            },
        },
{
    match check_cut(tree, args.slug, args.force) {
        Err(e) => return Err(e),
        Ok(()) => {},
    }
    let answer = Answer {
        text: text::owned(args.answer),
        rationale: text::owned_option(args.rationale),
        rejected: args.rejected,
        cauterised_by: None,
    };
    Ok(answer_head(tree, args.slug, answer, args.keep_subtree))
}

/// Refuses to let the answer of `by` kill `slug`, or lets it through.
pub fn check_cauterise(tree: &Tree, slug: &str, by: &str, force: bool) -> (r: Result<(), Error>)
    ensures
        match r {
            Ok(()) => cauterise_refusal(tree@.heads, slug@, by@, force) is None,
            Err(e) => cauterise_refusal(tree@.heads, slug@, by@, force) == Some(e@),
        },
{
    match require_head(tree, slug) {
        Err(e) => return Err(e),
        Ok(_) => {},
    }
    let killer = match require_head(tree, by) {
        Err(e) => return Err(e),
        Ok(head) => head,
    };
    if text::same(slug, by) {
        return Err(Error::SelfCauterise { slug: text::owned(slug) });
    }
    let answered = match killer.status {
        Status::Answered => true,
        Status::Open => false,
    };
    if !force && !answered {
        return Err(
            Error::CauteriseByUnanswered {
                slug: text::owned(slug),
                by: text::owned(by),
            },
        );
    }
    Ok(())
}

/// Kills a question that another answer made moot. This is not a state of its
/// own: the head ends up answered, with `cauterised_by` set.
///
/// Unanswered blockers do not stand in the way. They are usually about to be
/// cauterised themselves.
pub fn cauterise(tree: &mut Tree, args: Cauterise<'_>) -> (r: Result<Vec<String>, Error>)
    requires
        cauterise_refusal(old(tree)@.heads, args.slug@, args.by@, args.force) is None ==> old(
            tree,
        )@.heads[args.slug@].rev < u32::MAX,
    ensures
        match r {
            Ok(list) => {
                &&& cauterise_refusal(old(tree)@.heads, args.slug@, args.by@, args.force) is None
                &&& answers(
                    old(tree)@.heads,
                    final(tree)@.heads,
                    args.slug@,
                    killed(args.by@, text::optional_str(args.why)),
                    false,
                )
                &&& final(tree)@ == old(tree)@.with_heads(final(tree)@.heads)
                &&& text::texts(list@) == order::in_order(
                    cascaded(old(tree)@.heads, args.slug@, false),
                )
            },
            Err(e) => {
                &&& cauterise_refusal(old(tree)@.heads, args.slug@, args.by@, args.force) == Some(
                    e@,
                )
                &&& final(tree)@ == old(tree)@
            },
        },
{
    match check_cauterise(tree, args.slug, args.by, args.force) {
        Err(e) => return Err(e),
        Ok(()) => {},
    }
    let answer = Answer {
        text: text::owned(CAUTERISED),
        rationale: text::owned_option(args.why),
        rejected: Vec::new(),
        cauterised_by: Some(text::owned(args.by)),
    };
    assert(model::rejections(answer.rejected@) =~= Seq::<model::RejectedView>::empty());
    Ok(answer_head(tree, args.slug, answer, false))
}

/// Withdraws an answer. What stood on it is always reopened with it: a premise
/// that is withdrawn is no better than one that moved.
pub fn reopen(tree: &mut Tree, slug: &str) -> (r: Result<Vec<String>, Error>)
    ensures
        match r {
            Ok(list) => {
                let g = old(tree)@.heads;
                let h = final(tree)@.heads;
                &&& reopen_refusal(g, slug@) is None
                &&& g[slug@].reopened().now_is(h[slug@])
                &&& cascade::reopens(g.insert(slug@, h[slug@]), h, cascade::stale(g, slug@))
                &&& final(tree)@ == old(tree)@.with_heads(h)
                &&& text::texts(list@) == order::in_order(cascade::stale(g, slug@))
            },
            Err(e) => {
                &&& reopen_refusal(old(tree)@.heads, slug@) == Some(e@)
                &&& final(tree)@ == old(tree)@
            },
        },
{
    let ghost g = tree@.heads;
    let head = match require_head(tree, slug) {
        Err(e) => return Err(e),
        Ok(head) => head,
    };
    match head.status {
        Status::Open => {
            return Err(
                Error::IllegalTransition {
                    slug: text::owned(slug),
                    from: Status::Open,
                    to: Status::Open,
                },
            );
        },
        Status::Answered => {},
    }
    match tree.heads.get_mut(slug) {
        Some(head) => {
            head.reopen();
        },
        None => {},
    }
    let ghost mid = tree@.heads;
    proof {
        assert(mid == g.insert(slug@, mid[slug@]));
        lemma_stale_stays(g, slug@, mid[slug@]);
    }
    let out = cascade::cascade(tree, slug);
    assert(tree@.heads[slug@] == mid[slug@]) by {
        assert(mid.dom().contains(slug@));
    }
    Ok(out)
}

// ---------------------------------------------------------------------------
// Edits
// ---------------------------------------------------------------------------

/// `h` is `g` with `new` in place of `slug`, but for when it was written.
pub open spec fn rewrites(g: Graph, h: Graph, slug: Text, new: HeadView) -> bool {
    &&& new.now_is(h[slug])
    &&& h == g.insert(slug, h[slug])
}

pub open spec fn reword_refusal(g: Graph, slug: Text) -> Option<ErrorView> {
    if !g.dom().contains(slug) {
        Some(ErrorView::UnknownHead { slug })
    } else {
        None
    }
}

/// Replaces the text of a question and leaves its answer alone.
pub fn reword(tree: &mut Tree, slug: &str, question: &str) -> (r: Result<(), Error>)
    ensures
        match r {
            Ok(()) => {
                let g = old(tree)@.heads;
                let h = final(tree)@.heads;
                &&& reword_refusal(g, slug@) is None
                &&& rewrites(g, h, slug@, g[slug@].reworded(question@))
                &&& final(tree)@ == old(tree)@.with_heads(h)
            },
            Err(e) => {
                &&& reword_refusal(old(tree)@.heads, slug@) == Some(e@)
                &&& final(tree)@ == old(tree)@
            },
        },
{
    match require_head(tree, slug) {
        Err(e) => return Err(e),
        Ok(_) => {},
    }
    match tree.heads.get_mut(slug) {
        Some(head) => head.set_question(text::owned(question)),
        None => {},
    }
    Ok(())
}

/// What refuses to move `slug` under `parent`: that either is unknown, that
/// `slug` is on the ancestry of `parent`, or that `parent` stands on `slug` by
/// parents and blockers together, so that the move would close a cycle in the
/// cascade.
pub open spec fn reparent_refusal(g: Graph, slug: Text, parent: Option<Text>) -> Option<ErrorView> {
    if !g.dom().contains(slug) {
        Some(ErrorView::UnknownHead { slug })
    } else {
        match parent {
            None => None,
            Some(parent) => if !g.dom().contains(parent) {
                Some(ErrorView::UnknownParent { slug, parent })
            } else {
                match walk::line_between(g, slug, parent) {
                    Some(path) => Some(ErrorView::ParentCycle { slug, parent, path }),
                    None => match walk::route_between(g, true, parent, slug) {
                        Some(path) => Some(
                            ErrorView::ReopenCycle {
                                slug,
                                edge: Edge::Parent,
                                other: parent,
                                path: seq![slug] + path,
                            },
                        ),
                        None => None,
                    },
                }
            },
        }
    }
}

/// `h` is `g` with `slug` moved to the end of the heads under `parent`; nothing
/// moves where it is there already.
pub open spec fn reseats(g: Graph, h: Graph, slug: Text, parent: Option<Text>) -> bool {
    if g[slug].parent == parent {
        h == g
    } else {
        rewrites(g, h, slug, g[slug].reseated(parent, next_seq(g, parent) as u32))
    }
}

/// A walk with the head at which it ends put in front, which closes the loop.
fn cycle_from(slug: &str, path: Vec<String>) -> (r: Vec<String>)
    ensures
        text::texts(r@) == seq![slug@] + text::texts(path@),
{
    let mut out: Vec<String> = Vec::new();
    out.push(text::owned(slug));
    assert(text::texts(out@) =~= seq![slug@] + text::texts(path@).take(0));
    for i in 0..path.len()
        invariant
            text::texts(out@) == seq![slug@] + text::texts(path@).take(i as int),
    {
        let ghost so_far = text::texts(out@);
        out.push(path[i].clone());
        assert(text::texts(out@) =~= so_far.push(path@[i as int]@));
        assert(text::texts(path@).take(i + 1) =~= text::texts(path@).take(i as int).push(
            path@[i as int]@,
        ));
    }
    assert(text::texts(path@).take(path@.len() as int) =~= text::texts(path@));
    out
}

/// Refuses to move `slug` under `parent`, or lets it through.
pub fn check_reparent(tree: &Tree, slug: &str, parent: Option<&str>) -> (r: Result<(), Error>)
    ensures
        match r {
            Ok(()) => reparent_refusal(tree@.heads, slug@, text::optional_str(parent)) is None,
            Err(e) => reparent_refusal(tree@.heads, slug@, text::optional_str(parent)) == Some(e@),
        },
{
    match require_head(tree, slug) {
        Err(e) => return Err(e),
        Ok(_) => {},
    }
    match parent {
        Some(parent) => {
            if !tree.heads.contains_key(parent) {
                return Err(
                    Error::UnknownParent { slug: text::owned(slug), parent: text::owned(parent) },
                );
            }
            match walk::ancestry_from(tree, slug, parent) {
                Some(path) => {
                    return Err(
                        Error::ParentCycle {
                            slug: text::owned(slug),
                            parent: text::owned(parent),
                            path,
                        },
                    );
                },
                None => {},
            }
            match walk::walk_premises(tree, parent, slug, true) {
                Some(path) => {
                    return Err(
                        Error::ReopenCycle {
                            slug: text::owned(slug),
                            edge: Edge::Parent,
                            other: text::owned(parent),
                            path: cycle_from(slug, path),
                        },
                    );
                },
                None => {},
            }
        },
        None => {},
    }
    Ok(())
}

/// Moves a head under another parent, or makes it a root. It lands behind the
/// heads that are there.
pub fn reparent(tree: &mut Tree, slug: &str, parent: Option<&str>) -> (r: Result<(), Error>)
    requires
        reparent_refusal(old(tree)@.heads, slug@, text::optional_str(parent)) is None && old(
            tree,
        )@.heads[slug@].parent != text::optional_str(parent) ==> seats_left(
            old(tree)@.heads,
            text::optional_str(parent),
        ),
    ensures
        match r {
            Ok(()) => {
                let g = old(tree)@.heads;
                let h = final(tree)@.heads;
                &&& reparent_refusal(g, slug@, text::optional_str(parent)) is None
                &&& reseats(g, h, slug@, text::optional_str(parent))
                &&& final(tree)@ == old(tree)@.with_heads(h)
            },
            Err(e) => {
                &&& reparent_refusal(old(tree)@.heads, slug@, text::optional_str(parent)) == Some(
                    e@,
                )
                &&& final(tree)@ == old(tree)@
            },
        },
{
    match check_reparent(tree, slug, parent) {
        Err(e) => return Err(e),
        Ok(()) => {},
    }
    let head = match require_head(tree, slug) {
        Err(e) => return Err(e),
        Ok(head) => head,
    };
    if text::same_option(&head.parent, parent) {
        return Ok(());
    }
    let seq: u32 = next_seq_of(tree, parent);
    match tree.heads.get_mut(slug) {
        Some(head) => head.set_parent(text::owned_option(parent), seq),
        None => {},
    }
    Ok(())
}

/// What refuses to block `slug` by `blocked_by`: that either is unknown, or,
/// unless it is forced, that the edge would close a cycle of blockers or one of
/// blockers and parents together. An edge that is there already is refused by
/// neither.
pub open spec fn link_refusal(g: Graph, slug: Text, blocked_by: Text, force: bool) -> Option<
    ErrorView,
> {
    if !g.dom().contains(slug) {
        Some(ErrorView::UnknownHead { slug })
    } else if !g.dom().contains(blocked_by) {
        Some(ErrorView::UnknownBlocker { slug, blocked_by })
    } else if g[slug].blocked_by.contains(blocked_by) || force {
        None
    } else {
        match walk::route_between(g, false, blocked_by, slug) {
            Some(path) => Some(
                ErrorView::BlockCycle { slug, blocked_by, path: seq![slug] + path },
            ),
            None => match walk::route_between(g, true, blocked_by, slug) {
                Some(path) => Some(
                    ErrorView::ReopenCycle {
                        slug,
                        edge: Edge::BlockedBy,
                        other: blocked_by,
                        path: seq![slug] + path,
                    },
                ),
                None => None,
            },
        }
    }
}

/// `h` is `g` with `slug` blocked by `blocked_by`; nothing is written where it is
/// already.
pub open spec fn links(g: Graph, h: Graph, slug: Text, blocked_by: Text) -> bool {
    if g[slug].blocked_by.contains(blocked_by) {
        h == g
    } else {
        rewrites(g, h, slug, g[slug].gated_by(g[slug].blocked_by.to_set().insert(blocked_by)))
    }
}

/// Blocks a head by another. To add an edge that is there already is no error
/// and changes nothing.
pub fn link(tree: &mut Tree, slug: &str, blocked_by: &str, force: bool) -> (r: Result<(), Error>)
    ensures
        match r {
            Ok(()) => {
                let g = old(tree)@.heads;
                let h = final(tree)@.heads;
                &&& link_refusal(g, slug@, blocked_by@, force) is None
                &&& links(g, h, slug@, blocked_by@)
                &&& final(tree)@ == old(tree)@.with_heads(h)
            },
            Err(e) => {
                &&& link_refusal(old(tree)@.heads, slug@, blocked_by@, force) == Some(e@)
                &&& final(tree)@ == old(tree)@
            },
        },
{
    let head = match require_head(tree, slug) {
        Err(e) => return Err(e),
        Ok(head) => head,
    };
    if !tree.heads.contains_key(blocked_by) {
        return Err(
            Error::UnknownBlocker { slug: text::owned(slug), blocked_by: text::owned(blocked_by) },
        );
    }
    if text::listed(&head.blocked_by, blocked_by) {
        return Ok(());
    }
    if !force {
        match walk::walk_premises(tree, blocked_by, slug, false) {
            Some(path) => {
                return Err(
                    Error::BlockCycle {
                        slug: text::owned(slug),
                        blocked_by: text::owned(blocked_by),
                        path: cycle_from(slug, path),
                    },
                );
            },
            None => {},
        }
        match walk::walk_premises(tree, blocked_by, slug, true) {
            Some(path) => {
                return Err(
                    Error::ReopenCycle {
                        slug: text::owned(slug),
                        edge: Edge::BlockedBy,
                        other: text::owned(blocked_by),
                        path: cycle_from(slug, path),
                    },
                );
            },
            None => {},
        }
    }
    let mut edges = text::clone_texts(&head.blocked_by);
    let edge = text::owned(blocked_by);
    proof {
        walk::lemma_push_set(edges@, edge);
    }
    edges.push(edge);
    match tree.heads.get_mut(slug) {
        Some(head) => head.set_blocked_by(edges),
        None => {},
    }
    Ok(())
}

/// `h` is `g` with `slug` no longer blocked by `blocked_by`; nothing is written
/// where it is not.
pub open spec fn unlinks(g: Graph, h: Graph, slug: Text, blocked_by: Text) -> bool {
    if g[slug].blocked_by.contains(blocked_by) {
        rewrites(g, h, slug, g[slug].gated_by(g[slug].blocked_by.to_set().remove(blocked_by)))
    } else {
        h == g
    }
}

pub open spec fn unlink_refusal(g: Graph, slug: Text) -> Option<ErrorView> {
    if !g.dom().contains(slug) {
        Some(ErrorView::UnknownHead { slug })
    } else {
        None
    }
}

/// The texts of a list other than `x`.
fn without(list: &Vec<String>, x: &str) -> (r: Vec<String>)
    ensures
        text::texts(r@).to_set() == text::texts(list@).to_set().remove(x@),
{
    let ghost all = text::texts(list@);
    let mut out: Vec<String> = Vec::new();
    proof {
        assert(text::texts(out@).to_set() =~= all.take(0).to_set().remove(x@));
    }
    for i in 0..list.len()
        invariant
            all == text::texts(list@),
            text::texts(out@).to_set() == all.take(i as int).to_set().remove(x@),
    {
        proof {
            assert(all[i as int] == list@[i as int]@);
            order::lemma_take_one_more(all, i as int);
        }
        if !text::same(list[i].as_str(), x) {
            let kept = list[i].clone();
            proof {
                walk::lemma_push_set(out@, kept);
            }
            out.push(kept);
        }
        assert(text::texts(out@).to_set() =~= all.take(i + 1).to_set().remove(x@));
    }
    assert(all.take(list@.len() as int) =~= all);
    out
}

/// Takes a blocker off a head. That the edge is not there is no error, and
/// neither is that the blocker does not exist: this is how a damaged file is
/// mended.
pub fn unlink(tree: &mut Tree, slug: &str, blocked_by: &str) -> (r: Result<(), Error>)
    ensures
        match r {
            Ok(()) => {
                let g = old(tree)@.heads;
                let h = final(tree)@.heads;
                &&& unlink_refusal(g, slug@) is None
                &&& unlinks(g, h, slug@, blocked_by@)
                &&& final(tree)@ == old(tree)@.with_heads(h)
            },
            Err(e) => {
                &&& unlink_refusal(old(tree)@.heads, slug@) == Some(e@)
                &&& final(tree)@ == old(tree)@
            },
        },
{
    let head = match require_head(tree, slug) {
        Err(e) => return Err(e),
        Ok(head) => head,
    };
    if !text::listed(&head.blocked_by, blocked_by) {
        return Ok(());
    }
    let edges = without(&head.blocked_by, blocked_by);
    match tree.heads.get_mut(slug) {
        Some(head) => head.set_blocked_by(edges),
        None => {},
    }
    Ok(())
}

} // verus!

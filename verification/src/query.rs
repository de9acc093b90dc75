//! Reading a tree: what can be asked, what comes next, and everything that a cold
//! start needs to know. Nothing here is stored; every answer is derived afresh.

use vstd::prelude::*;

use crate::error::{Error, ErrorView};
use crate::model::{Graph, Head, HeadView, Status, Tree, TreeView};
pub use crate::preorder::{preorder, Visit};
use crate::preorder as reading;
pub use crate::state::{is_blocked, is_cauterised, is_done, is_ready, open_blockers, state, State};
use crate::state as derived;
use crate::text::{self, Text};
use crate::walk;

verus! {

// ---------------------------------------------------------------------------
// First lines
// ---------------------------------------------------------------------------

/// The text up to its first line feed.
pub open spec fn up_to_line_feed(t: Text) -> Text
    decreases t.len(),
{
    if t.len() == 0 || t[0] == '\n' {
        Seq::empty()
    } else {
        seq![t[0]] + up_to_line_feed(t.skip(1))
    }
}

/// The first line of a text, without what ends it: a line feed, or a carriage
/// return and a line feed.
pub open spec fn first_line_of(t: Text) -> Text {
    let line = up_to_line_feed(t);
    if line.len() < t.len() && line.len() > 0 && line.last() == '\r' {
        line.drop_last()
    } else {
        line
    }
}

proof fn lemma_line_feed(t: Text, n: int)
    requires
        0 <= n <= t.len(),
        forall|i: int| 0 <= i < n ==> #[trigger] t[i] != '\n',
        n < t.len() ==> t[n] == '\n',
    ensures
        up_to_line_feed(t) == t.take(n),
    decreases t.len(),
{
    if n == 0 {
        assert(t.take(0) =~= Seq::<char>::empty());
    } else {
        assert(t[0] != '\n');
        let rest = t.skip(1);
        assert forall|i: int| 0 <= i < n - 1 implies #[trigger] rest[i] != '\n' by {
            assert(t[i + 1] != '\n');
        }
        lemma_line_feed(rest, n - 1);
        assert(seq![t[0]] + rest.take(n - 1) =~= t.take(n));
    }
}

/// The one-line summary of an answer: its first line.
pub fn first_line(text: &str) -> (r: &str)
    ensures
        r@ == first_line_of(text@),
{
    let chars = text::chars_of(text);
    let mut end: usize = 0;
    while end < chars.len() && chars[end] != '\n'
        invariant
            chars@ == text@,
            end <= chars@.len(),
            forall|i: int| 0 <= i < end ==> #[trigger] text@[i] != '\n',
        decreases chars@.len() - end,
    {
        end = end + 1;
    }
    proof {
        lemma_line_feed(text@, end as int);
        assert(text@.subrange(0, end as int) =~= text@.take(end as int));
    }
    if end < chars.len() && end > 0 && chars[end - 1] == '\r' {
        assert(text@.subrange(0, end - 1) =~= text@.take(end as int).drop_last());
        text.substring_char(0, end - 1)
    } else {
        text.substring_char(0, end)
    }
}

// ---------------------------------------------------------------------------
// Ancestors
// ---------------------------------------------------------------------------

/// The ancestry of `slug`, root first and without `slug` itself. It stops at a
/// parent that does not exist and at one that it has been to.
pub fn ancestors(tree: &Tree, slug: &str) -> (r: Vec<String>)
    ensures
        text::texts(r@) == walk::ancestry(tree@.heads, slug@),
        walk::is_ancestry(tree@.heads, slug@, text::texts(r@)),
{
    proof {
        use_type_invariant(&tree.heads);
        crate::heads::lemma_zipped(tree.heads.keys(), tree.heads.values());
    }
    let ghost g = tree@.heads;
    let mut chain: Vec<String> = Vec::new();
    let ghost mut line: Seq<Text> = Seq::empty();
    let mut at = match tree.heads.get(slug) {
        Some(head) => text::clone_option(&head.parent),
        None => None,
    };
    proof {
        assert(text::texts(chain@).reverse() =~= line);
        assert(line.push(slug@) =~= seq![slug@]);
    }
    loop
        invariant
            g == tree@.heads,
            g.dom().finite(),
            text::texts(chain@).reverse() == line,
            line.push(slug@).no_duplicates(),
            walk::descends(g, line.push(slug@)),
            forall|i: int| 0 <= i < line.len() ==> g.dom().contains(#[trigger] line[i]),
            text::optional(at) == (if g.dom().contains(line.push(slug@)[0]) {
                g[line.push(slug@)[0]].parent
            } else {
                None
            }),
        decreases g.dom().len() - line.len(),
    {
        let ghost whole = line.push(slug@);
        let parent = match at {
            None => {
                proof {
                    walk::ancestry_is(g, slug@, line);
                }
                return walk::reversed(chain);
            },
            Some(parent) => parent,
        };
        let head = match tree.heads.get(parent.as_str()) {
            None => {
                proof {
                    walk::ancestry_is(g, slug@, line);
                }
                return walk::reversed(chain);
            },
            Some(head) => head,
        };
        proof {
            walk::lemma_reverse_contains(text::texts(chain@), parent@);
            crate::cascade::lemma_contains_push(line, slug@, parent@);
        }
        if text::same(parent.as_str(), slug) || text::listed(&chain, parent.as_str()) {
            proof {
                walk::ancestry_is(g, slug@, line);
            }
            return walk::reversed(chain);
        }
        at = text::clone_option(&head.parent);
        proof {
            let longer = seq![parent@] + line;
            let next = longer.push(slug@);
            assert(next =~= seq![parent@] + whole);
            assert(text::texts(chain@.push(parent)) =~= text::texts(chain@).push(parent@));
            assert(text::texts(chain@.push(parent)).reverse() =~= longer);
            assert forall|i: int, j: int|
                0 <= i < next.len() && 0 <= j < next.len() && i != j implies next[i]
                != next[j] by {
                if i > 0 {
                    assert(next[i] == whole[i - 1]);
                    assert(whole.contains(next[i]));
                }
                if j > 0 {
                    assert(next[j] == whole[j - 1]);
                    assert(whole.contains(next[j]));
                }
            }
            assert forall|i: int|
                #![trigger next[i]]
                0 < i < next.len() implies g.dom().contains(next[i]) && g[next[i]].parent
                == Some(next[i - 1]) by {
                assert(next[i] == whole[i - 1]);
                if i > 1 {
                    assert(next[i - 1] == whole[i - 2]);
                }
            }
            assert forall|i: int| 0 <= i < longer.len() implies g.dom().contains(
                #[trigger] longer[i],
            ) by {
                if i > 0 {
                    assert(longer[i] == line[i - 1]);
                }
            }
            assert(longer.no_duplicates()) by {
                assert forall|i: int, j: int|
                    0 <= i < longer.len() && 0 <= j < longer.len() && i != j implies longer[i]
                    != longer[j] by {
                    assert(longer[i] == next[i]);
                    assert(longer[j] == next[j]);
                }
            }
            longer.unique_seq_to_set();
            assert(longer.to_set().subset_of(g.dom()));
            vstd::set_lib::lemma_len_subset(longer.to_set(), g.dom());
            line = longer;
        }
        chain.push(parent);
    }
}

// ---------------------------------------------------------------------------
// Rows and details
// ---------------------------------------------------------------------------

/// One row of the map of a tree.
#[derive(Debug, Clone, PartialEq, Eq)]
pub struct Skeleton {
    pub slug: String,
    pub question: String,
    /// The stored state.
    pub status: Status,
    /// What the head looks like, which tells whether it can be asked.
    pub state: State,
    pub summary: Option<String>,
    /// The first line of the last answer of a head that is open again, kept apart
    /// so that a summary never looks settled when it is not.
    pub prior_summary: Option<String>,
}

pub struct SkeletonView {
    pub slug: Text,
    pub question: Text,
    pub status: Status,
    pub state: State,
    pub summary: Option<Text>,
    pub prior_summary: Option<Text>,
}

impl View for Skeleton {
    type V = SkeletonView;

    open spec fn view(&self) -> SkeletonView {
        SkeletonView {
            slug: self.slug@,
            question: self.question@,
            status: self.status,
            state: self.state,
            summary: text::optional(self.summary),
            prior_summary: text::optional(self.prior_summary),
        }
    }
}

pub open spec fn rows(list: Seq<Skeleton>) -> Seq<SkeletonView> {
    list.map_values(|row: Skeleton| row@)
}

/// The row of one head.
pub open spec fn row_of(g: Graph, slug: Text) -> SkeletonView {
    let head = g[slug];
    SkeletonView {
        slug,
        question: head.question,
        status: head.status,
        state: derived::state_of(g, head),
        summary: match head.answer {
            Some(answer) => Some(first_line_of(answer.text)),
            None => None,
        },
        prior_summary: match (head.answer, head.prior) {
            (None, Some(prior)) => Some(first_line_of(prior.text)),
            _ => None,
        },
    }
}

/// One head with everything that is derived from it.
#[derive(Debug, Clone)]
pub struct Detail {
    pub head: Head,
    pub state: State,
    /// The blockers that are not answered. A head that was forced past them is
    /// answered and still lists them, which is the only trace of it.
    pub open_blockers: Vec<String>,
    /// Root first, without the head itself.
    pub ancestors: Vec<String>,
}

pub struct DetailView {
    pub head: HeadView,
    pub state: State,
    pub open_blockers: Seq<Text>,
    pub ancestors: Seq<Text>,
}

impl View for Detail {
    type V = DetailView;

    open spec fn view(&self) -> DetailView {
        DetailView {
            head: self.head@,
            state: self.state,
            open_blockers: text::texts(self.open_blockers@),
            ancestors: text::texts(self.ancestors@),
        }
    }
}

pub open spec fn details(list: Seq<Detail>) -> Seq<DetailView> {
    list.map_values(|detail: Detail| detail@)
}

pub open spec fn detail_of(g: Graph, slug: Text) -> DetailView {
    DetailView {
        head: g[slug],
        state: derived::state_of(g, g[slug]),
        open_blockers: derived::unmet_blockers(g, g[slug]),
        ancestors: walk::ancestry(g, slug),
    }
}

fn row(tree: &Tree, slug: &str, head: &Head) -> (r: Skeleton)
    requires
        head@ == tree@.heads[slug@],
    ensures
        r@ == row_of(tree@.heads, slug@),
{
    Skeleton {
        slug: text::owned(slug),
        question: head.question.clone(),
        status: head.status,
        state: state(tree, head),
        summary: match &head.answer {
            Some(answer) => Some(text::owned(first_line(answer.text.as_str()))),
            None => None,
        },
        prior_summary: match (&head.answer, &head.prior) {
            (None, Some(prior)) => Some(text::owned(first_line(prior.text.as_str()))),
            _ => None,
        },
    }
}

fn detail(tree: &Tree, slug: &str, head: &Head) -> (r: Detail)
    requires
        head@ == tree@.heads[slug@],
    ensures
        r@ == detail_of(tree@.heads, slug@),
{
    Detail {
        head: head.clone(),
        state: state(tree, head),
        open_blockers: open_blockers(tree, head),
        ancestors: ancestors(tree, slug),
    }
}

/// The slugs of a tree in the order in which it is read.
pub open spec fn read_order(g: Graph) -> Seq<Text> {
    reading::slugs_of(reading::outline(g))
}

pub open spec fn askable(g: Graph) -> spec_fn(Text) -> bool {
    |slug: Text| derived::can_be_asked(g, g[slug])
}

/// The heads that can be asked, in the order in which the tree is read.
pub open spec fn ready_order(g: Graph) -> Seq<Text> {
    read_order(g).filter(askable(g))
}

pub open spec fn rows_of(g: Graph, slugs: Seq<Text>) -> Seq<SkeletonView> {
    slugs.map_values(|slug: Text| row_of(g, slug))
}

/// The first head that can be asked.
pub open spec fn next_of(g: Graph) -> Option<Text> {
    if ready_order(g).len() > 0 {
        Some(ready_order(g)[0])
    } else {
        None
    }
}

/// A row for every head, in the order in which the tree is read.
pub fn skeleton(tree: &Tree) -> (r: Vec<Skeleton>)
    ensures
        rows(r@) == rows_of(tree@.heads, read_order(tree@.heads)),
{
    let ghost g = tree@.heads;
    let visits = preorder(tree);
    let ghost all = read_order(g);
    let mut out: Vec<Skeleton> = Vec::new();
    proof {
        assert(all.len() == visits@.len());
        assert(rows(out@) =~= rows_of(g, all.take(0)));
    }
    for i in 0..visits.len()
        invariant
            g == tree@.heads,
            all == read_order(g),
            all.len() == visits@.len(),
            reading::stops(visits@) == reading::outline(g),
            reading::reads(g, visits@),
            rows(out@) == rows_of(g, all.take(i as int)),
    {
        let visit = &visits[i];
        proof {
            assert(reading::stops(visits@)[i as int].0 == visit.slug@);
            assert(all[i as int] == visit.slug@);
        }
        let next = row(tree, visit.slug, visit.head);
        proof {
            assert(rows(out@.push(next)) =~= rows(out@).push(next@));
            assert(all.take(i + 1) =~= all.take(i as int).push(all[i as int]));
            assert(rows_of(g, all.take(i + 1)) =~= rows_of(g, all.take(i as int)).push(
                row_of(g, all[i as int]),
            ));
        }
        out.push(next);
    }
    assert(all.take(visits@.len() as int) =~= all);
    out
}

/// A row for every head that can be asked, in the order in which the tree is
/// read.
pub fn ready(tree: &Tree) -> (r: Vec<Skeleton>)
    ensures
        rows(r@) == rows_of(tree@.heads, ready_order(tree@.heads)),
{
    let ghost g = tree@.heads;
    let visits = preorder(tree);
    let ghost all = read_order(g);
    let ghost p = askable(g);
    let mut out: Vec<Skeleton> = Vec::new();
    proof {
        reveal(Seq::filter);
        assert(all.len() == visits@.len());
        assert(all.take(0).filter(p) =~= Seq::<Text>::empty());
        assert(rows(out@) =~= rows_of(g, all.take(0).filter(p)));
    }
    for i in 0..visits.len()
        invariant
            g == tree@.heads,
            all == read_order(g),
            p == askable(g),
            all.len() == visits@.len(),
            reading::stops(visits@) == reading::outline(g),
            reading::reads(g, visits@),
            rows(out@) == rows_of(g, all.take(i as int).filter(p)),
    {
        let visit = &visits[i];
        proof {
            reveal(Seq::filter);
            assert(reading::stops(visits@)[i as int].0 == visit.slug@);
            assert(all[i as int] == visit.slug@);
            assert(all.take(i + 1).drop_last() =~= all.take(i as int));
            assert(all.take(i + 1).last() == all[i as int]);
        }
        if is_ready(tree, visit.head) {
            let next = row(tree, visit.slug, visit.head);
            proof {
                let front = all.take(i as int).filter(p);
                assert(rows(out@.push(next)) =~= rows(out@).push(next@));
                assert(rows_of(g, front.push(all[i as int])) =~= rows_of(g, front).push(
                    row_of(g, all[i as int]),
                ));
            }
            out.push(next);
        }
    }
    assert(all.take(visits@.len() as int) =~= all);
    out
}

proof fn lemma_first_kept(list: Seq<Text>, p: spec_fn(Text) -> bool, i: int)
    requires
        0 <= i < list.len(),
        p(list[i]),
        forall|j: int| 0 <= j < i ==> !p(#[trigger] list[j]),
    ensures
        list.filter(p).len() > 0,
        list.filter(p)[0] == list[i],
    decreases list.len(),
{
    reveal(Seq::filter);
    let front = list.drop_last();
    if i == list.len() - 1 {
        lemma_none_kept(front, p);
        assert(front.filter(p) =~= Seq::<Text>::empty());
    } else {
        lemma_first_kept(front, p, i);
    }
}

proof fn lemma_none_kept(list: Seq<Text>, p: spec_fn(Text) -> bool)
    requires
        forall|j: int| 0 <= j < list.len() ==> !p(#[trigger] list[j]),
    ensures
        list.filter(p).len() == 0,
    decreases list.len(),
{
    reveal(Seq::filter);
    if list.len() > 0 {
        let front = list.drop_last();
        assert forall|j: int| 0 <= j < front.len() implies !p(#[trigger] front[j]) by {
            assert(front[j] == list[j]);
        }
        lemma_none_kept(front, p);
        assert(!p(list[list.len() - 1]));
    }
}

/// The first head that can be asked, in the order in which the tree is read.
/// That is the order of the document and says nothing of priority.
pub fn next_slug(tree: &Tree) -> (r: Option<&str>)
    ensures
        text::optional_str(r) == next_of(tree@.heads),
        r matches Some(slug) ==> tree@.heads.dom().contains(slug@),
{
    let ghost g = tree@.heads;
    let visits = preorder(tree);
    let ghost all = read_order(g);
    let ghost p = askable(g);
    assert(all.len() == visits@.len());
    for i in 0..visits.len()
        invariant
            g == tree@.heads,
            all == read_order(g),
            p == askable(g),
            all.len() == visits@.len(),
            reading::stops(visits@) == reading::outline(g),
            reading::reads(g, visits@),
            forall|j: int| 0 <= j < i ==> !p(#[trigger] all[j]),
    {
        let visit = visits[i];
        proof {
            assert(reading::stops(visits@)[i as int].0 == visit.slug@);
            assert(all[i as int] == visit.slug@);
            assert(visits@[i as int].head@ == g[visit.slug@]);
        }
        if is_ready(tree, visit.head) {
            proof {
                lemma_first_kept(all, p, i as int);
            }
            return Some(visit.slug);
        }
    }
    proof {
        lemma_none_kept(all, p);
    }
    None
}

pub open spec fn detail_view(detail: Option<Detail>) -> Option<DetailView> {
    match detail {
        Some(detail) => Some(detail@),
        None => None,
    }
}

/// The first head that can be asked, in full.
pub fn next(tree: &Tree) -> (r: Option<Detail>)
    ensures
        detail_view(r) == (match next_of(tree@.heads) {
            Some(slug) => Some(detail_of(tree@.heads, slug)),
            None => None,
        }),
{
    match next_slug(tree) {
        Some(slug) => match tree.heads.get(slug) {
            Some(head) => Some(detail(tree, slug, head)),
            None => None,
        },
        None => None,
    }
}

/// One head in full.
pub fn show(tree: &Tree, slug: &str) -> (r: Result<Detail, Error>)
    ensures
        match r {
            Ok(detail) => tree@.heads.dom().contains(slug@) && detail@ == detail_of(
                tree@.heads,
                slug@,
            ),
            Err(e) => !tree@.heads.dom().contains(slug@) && e@ == (ErrorView::UnknownHead {
                slug: slug@,
            }),
        },
{
    match tree.heads.get(slug) {
        Some(head) => Ok(detail(tree, slug, head)),
        None => Err(Error::UnknownHead { slug: text::owned(slug) }),
    }
}

// ---------------------------------------------------------------------------
// Counts
// ---------------------------------------------------------------------------

#[derive(Debug, Clone, PartialEq, Eq)]
pub struct Counts {
    /// The slug of the tree, so that a stale pointer to it shows.
    pub tree: String,
    pub answered: usize,
    pub open: usize,
    pub ready: usize,
    pub blocked: usize,
    /// Among `answered`, not beside it.
    pub cauterised: usize,
    /// No head is open, as is so of a tree without heads.
    pub done: bool,
}

pub struct CountsView {
    pub tree: Text,
    pub answered: nat,
    pub open: nat,
    pub ready: nat,
    pub blocked: nat,
    pub cauterised: nat,
    pub done: bool,
}

impl View for Counts {
    type V = CountsView;

    open spec fn view(&self) -> CountsView {
        CountsView {
            tree: self.tree@,
            answered: self.answered as nat,
            open: self.open as nat,
            ready: self.ready as nat,
            blocked: self.blocked as nat,
            cauterised: self.cauterised as nat,
            done: self.done,
        }
    }
}

pub open spec fn with_status(g: Graph, status: Status) -> Set<Text> {
    Set::new(|slug: Text| g.dom().contains(slug) && g[slug].status == status)
}

pub open spec fn in_state(g: Graph, state: State) -> Set<Text> {
    Set::new(|slug: Text| g.dom().contains(slug) && derived::state_of(g, g[slug]) == state)
}

pub open spec fn counts_of(tree: TreeView) -> CountsView {
    let g = tree.heads;
    CountsView {
        tree: tree.slug,
        answered: with_status(g, Status::Answered).len(),
        open: with_status(g, Status::Open).len(),
        ready: in_state(g, State::Ready).len(),
        blocked: in_state(g, State::Blocked).len(),
        cauterised: in_state(g, State::Cauterised).len(),
        done: derived::finished(g),
    }
}

/// The first `n` of `keys` that are in a state.
spec fn among(g: Graph, keys: Seq<Text>, n: int, state: State) -> Set<Text> {
    Set::new(|slug: Text| keys.take(n).contains(slug) && derived::state_of(g, g[slug]) == state)
}

proof fn lemma_among(g: Graph, keys: Seq<Text>, n: int, state: State)
    requires
        keys.no_duplicates(),
        0 <= n < keys.len(),
        among(g, keys, n, state).finite(),
    ensures
        among(g, keys, n + 1, state).finite(),
        among(g, keys, n + 1, state).len() == among(g, keys, n, state).len() + (
        if derived::state_of(g, g[keys[n]]) == state {
            1nat
        } else {
            0nat
        }),
{
    let key = keys[n];
    let front = keys.take(n);
    assert(keys.take(n + 1) =~= front.push(key));
    assert forall|x: Text| #[trigger] keys.take(n + 1).contains(x) <==> front.contains(x) || x
        == key by {
        crate::cascade::lemma_contains_push(front, key, x);
    }
    assert(!front.contains(key)) by {
        if front.contains(key) {
            let i = choose|i: int| 0 <= i < n && front[i] == key;
            assert(keys[i] == keys[n]);
        }
    }
    if derived::state_of(g, g[key]) == state {
        assert(among(g, keys, n + 1, state) =~= among(g, keys, n, state).insert(key));
    } else {
        assert(among(g, keys, n + 1, state) =~= among(g, keys, n, state));
    }
}

proof fn lemma_states_split(g: Graph)
    requires
        g.dom().finite(),
    ensures
        with_status(g, Status::Answered).len() == in_state(g, State::Answered).len() + in_state(
            g,
            State::Cauterised,
        ).len(),
        with_status(g, Status::Open).len() == in_state(g, State::Ready).len() + in_state(
            g,
            State::Blocked,
        ).len(),
        with_status(g, Status::Answered).len() + with_status(g, Status::Open).len()
            == g.dom().len(),
        with_status(g, Status::Open).finite(),
{
    let answered = with_status(g, Status::Answered);
    let open = with_status(g, Status::Open);
    let plain = in_state(g, State::Answered);
    let killed = in_state(g, State::Cauterised);
    let ready = in_state(g, State::Ready);
    let blocked = in_state(g, State::Blocked);
    vstd::set_lib::lemma_set_subset_finite(g.dom(), answered);
    vstd::set_lib::lemma_set_subset_finite(g.dom(), open);
    vstd::set_lib::lemma_set_subset_finite(g.dom(), plain);
    vstd::set_lib::lemma_set_subset_finite(g.dom(), killed);
    vstd::set_lib::lemma_set_subset_finite(g.dom(), ready);
    vstd::set_lib::lemma_set_subset_finite(g.dom(), blocked);
    vstd::set_lib::lemma_set_disjoint_lens(plain, killed);
    vstd::set_lib::lemma_set_disjoint_lens(ready, blocked);
    vstd::set_lib::lemma_set_disjoint_lens(answered, open);
    assert(plain + killed =~= answered);
    assert(ready + blocked =~= open);
    assert(answered + open =~= g.dom());
}

/// The counts of a tree.
pub fn status(tree: &Tree) -> (r: Counts)
    ensures
        r@ == counts_of(tree@),
{
    proof {
        use_type_invariant(&tree.heads);
        crate::heads::lemma_zipped(tree.heads.keys(), tree.heads.values());
        crate::order::by_text_is_strict();
        crate::order::arranged_has_no_duplicates(tree.heads.keys(), crate::order::by_text());
    }
    let ghost g = tree@.heads;
    let ghost keys = tree.heads.keys();
    let count = tree.heads.len();
    let mut plain: usize = 0;
    let mut cauterised: usize = 0;
    let mut ready: usize = 0;
    let mut blocked: usize = 0;
    proof {
        assert(among(g, keys, 0, State::Answered) =~= Set::<Text>::empty());
        assert(among(g, keys, 0, State::Cauterised) =~= Set::<Text>::empty());
        assert(among(g, keys, 0, State::Ready) =~= Set::<Text>::empty());
        assert(among(g, keys, 0, State::Blocked) =~= Set::<Text>::empty());
    }
    for i in 0..count
        invariant
            g == tree@.heads,
            keys == tree.heads.keys(),
            keys.no_duplicates(),
            count == keys.len(),
            plain + cauterised + ready + blocked == i,
            among(g, keys, i as int, State::Answered).finite(),
            among(g, keys, i as int, State::Cauterised).finite(),
            among(g, keys, i as int, State::Ready).finite(),
            among(g, keys, i as int, State::Blocked).finite(),
            plain == among(g, keys, i as int, State::Answered).len(),
            cauterised == among(g, keys, i as int, State::Cauterised).len(),
            ready == among(g, keys, i as int, State::Ready).len(),
            blocked == among(g, keys, i as int, State::Blocked).len(),
    {
        proof {
            lemma_among(g, keys, i as int, State::Answered);
            lemma_among(g, keys, i as int, State::Cauterised);
            lemma_among(g, keys, i as int, State::Ready);
            lemma_among(g, keys, i as int, State::Blocked);
        }
        match state(tree, tree.heads.value_at(i)) {
            State::Answered => plain = plain + 1,
            State::Cauterised => cauterised = cauterised + 1,
            State::Ready => ready = ready + 1,
            State::Blocked => blocked = blocked + 1,
        }
    }
    proof {
        assert(keys.take(count as int) =~= keys);
        assert forall|state: State| #[trigger] among(g, keys, count as int, state) == in_state(
            g,
            state,
        ) by {
            assert(among(g, keys, count as int, state) =~= in_state(g, state));
        }
        lemma_states_split(g);
        lemma_done(g);
    }
    Counts {
        tree: tree.slug.clone(),
        answered: plain + cauterised,
        open: ready + blocked,
        ready,
        blocked,
        cauterised,
        done: ready + blocked == 0,
    }
}

proof fn lemma_done(g: Graph)
    requires
        g.dom().finite(),
    ensures
        derived::finished(g) <==> with_status(g, Status::Open).len() == 0,
{
    let open = with_status(g, Status::Open);
    lemma_states_split(g);
    if derived::finished(g) {
        assert(open =~= Set::empty());
    }
    if open.len() == 0 {
        assert(open =~= Set::empty());
        assert forall|slug: Text| #[trigger] g.dom().contains(slug) implies g[slug].status
            == Status::Answered by {
            assert(!open.contains(slug));
        }
    }
}

/// The counts of a tree add up: answered and open make the whole, ready and
/// blocked make the open, the cauterised are among the answered, and a tree is
/// done when none is open.
pub proof fn counts_add_up(tree: TreeView)
    requires
        tree.heads.dom().finite(),
    ensures
        ({
            let counts = counts_of(tree);
            &&& counts.answered + counts.open == tree.heads.dom().len()
            &&& counts.ready + counts.blocked == counts.open
            &&& counts.cauterised <= counts.answered
            &&& counts.done <==> counts.open == 0
        }),
{
    lemma_states_split(tree.heads);
    lemma_done(tree.heads);
}

/// A head comes next if and only if there is one that can be asked, and then it
/// is one of them.
pub proof fn next_is_ready(g: Graph)
    requires
        g.dom().finite(),
    ensures
        next_of(g) is None <==> forall|slug: Text| #[trigger]
            g.dom().contains(slug) ==> !derived::can_be_asked(g, g[slug]),
        next_of(g) matches Some(slug) ==> g.dom().contains(slug) && derived::can_be_asked(
            g,
            g[slug],
        ),
{
    let all = read_order(g);
    let p = askable(g);
    reading::every_head_is_read_once(g);
    match next_of(g) {
        Some(slug) => {
            assert(all.filter(p).contains(slug));
            crate::order::lemma_kept_is_listed(all, p, slug);
            assert(all.to_set().contains(slug));
        },
        None => {
            assert forall|slug: Text| #[trigger]
                g.dom().contains(slug) implies !derived::can_be_asked(g, g[slug]) by {
                assert(all.to_set().contains(slug));
                let i = choose|i: int| 0 <= i < all.len() && all[i] == slug;
                if p(all[i]) {
                    all.lemma_filter_contains(p, i);
                }
            }
        },
    }
}

/// Nothing comes next exactly when the tree is done, if its blockers exist and do
/// not block each other in a circle, as those of a sound tree do not.
pub proof fn nothing_comes_next_when_done(tree: TreeView)
    requires
        tree.heads.dom().finite(),
        crate::sound::blockers_exist(tree.heads),
        crate::sound::acyclic_by(tree.heads, false),
    ensures
        next_of(tree.heads) is None <==> counts_of(tree).done,
{
    let g = tree.heads;
    next_is_ready(g);
    if !derived::finished(g) {
        crate::sound::open_heads_do_not_all_wait(g);
    }
}

// ---------------------------------------------------------------------------
// Resuming
// ---------------------------------------------------------------------------

/// All that a cold start needs. What orients comes first and what is long last,
/// so that a payload that is cut short still reads.
#[derive(Debug, Clone)]
pub struct Resume {
    /// What the interview is for.
    pub intent: String,
    pub counts: Counts,
    /// `None` when the tree is done or has no heads, or when every open head is
    /// blocked, which means that something is wrong with it.
    pub next: Option<String>,
    /// Every head, in the order in which the tree is read.
    pub skeleton: Vec<Skeleton>,
    /// `next` behind its ancestors, root first.
    pub hydrated: Vec<Detail>,
}

pub struct ResumeView {
    pub intent: Text,
    pub counts: CountsView,
    pub next: Option<Text>,
    pub skeleton: Seq<SkeletonView>,
    pub hydrated: Seq<DetailView>,
}

impl View for Resume {
    type V = ResumeView;

    open spec fn view(&self) -> ResumeView {
        ResumeView {
            intent: self.intent@,
            counts: self.counts@,
            next: text::optional(self.next),
            skeleton: rows(self.skeleton@),
            hydrated: details(self.hydrated@),
        }
    }
}

pub open spec fn details_of(g: Graph, slugs: Seq<Text>) -> Seq<DetailView> {
    slugs.map_values(|slug: Text| detail_of(g, slug))
}

/// The head that comes next and what it rests on, root first.
pub open spec fn premises_of_next(g: Graph) -> Seq<Text> {
    match next_of(g) {
        Some(slug) => walk::ancestry(g, slug).push(slug),
        None => Seq::empty(),
    }
}

pub open spec fn resume_of(tree: TreeView) -> ResumeView {
    ResumeView {
        intent: tree.intent,
        counts: counts_of(tree),
        next: next_of(tree.heads),
        skeleton: rows_of(tree.heads, read_order(tree.heads)),
        hydrated: details_of(tree.heads, premises_of_next(tree.heads)),
    }
}

/// The ancestry of a head and the head itself, in full.
fn hydrate(tree: &Tree, slug: &str) -> (r: Vec<Detail>)
    requires
        tree@.heads.dom().contains(slug@),
    ensures
        details(r@) == details_of(tree@.heads, walk::ancestry(tree@.heads, slug@).push(slug@)),
{
    let ghost g = tree@.heads;
    let mut slugs = ancestors(tree, slug);
    let ghost line = text::texts(slugs@);
    let last = text::owned(slug);
    assert(text::texts(slugs@.push(last)) =~= line.push(slug@));
    slugs.push(last);
    let ghost all = line.push(slug@);
    let mut out: Vec<Detail> = Vec::new();
    assert(details(out@) =~= details_of(g, all.take(0)));
    for i in 0..slugs.len()
        invariant
            g == tree@.heads,
            all == text::texts(slugs@),
            forall|j: int| 0 <= j < all.len() ==> g.dom().contains(#[trigger] all[j]),
            details(out@) == details_of(g, all.take(i as int)),
    {
        proof {
            assert(all[i as int] == slugs@[i as int]@);
            assert(all.take(i + 1) =~= all.take(i as int).push(all[i as int]));
            assert(details_of(g, all.take(i + 1)) =~= details_of(g, all.take(i as int)).push(
                detail_of(g, all[i as int]),
            ));
        }
        match tree.heads.get(slugs[i].as_str()) {
            Some(head) => {
                let next = detail(tree, slugs[i].as_str(), head);
                assert(details(out@.push(next)) =~= details(out@).push(next@));
                out.push(next);
            },
            None => {
                assert(false);
            },
        }
    }
    assert(all.take(slugs@.len() as int) =~= all);
    out
}

/// A map of the whole tree, and in full what the next question rests on.
pub fn resume(tree: &Tree) -> (r: Resume)
    ensures
        r@ == resume_of(tree@),
{
    let next = next_slug(tree);
    let hydrated = match next {
        Some(slug) => hydrate(tree, slug),
        None => {
            let none: Vec<Detail> = Vec::new();
            assert(details(none@) =~= details_of(tree@.heads, Seq::empty()));
            none
        },
    };
    Resume {
        intent: tree.intent.clone(),
        counts: status(tree),
        next: text::owned_option(next),
        skeleton: skeleton(tree),
        hydrated,
    }
}

} // verus!

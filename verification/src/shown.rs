//! What the queries and the drawing show of a tree, field by field.
//!
//! A row, a detail and a line of the drawing are read off the stored heads. Here it
//! is said of each of their fields which field of which head it comes from.

use vstd::prelude::*;

use crate::cli::{self, OutputView, Query};
use crate::complete;
use crate::error::{Error, ErrorView};
use crate::model::{Graph, HeadView, Status, Tree, TreeView};
use crate::order;
use crate::preorder as reading;
use crate::query;
use crate::render::{self, Colour, RowView};
use crate::state::{self as derived, State};
use crate::text::{self, Text};
use crate::walk;

verus! {

// ---------------------------------------------------------------------------
// States and lines
// ---------------------------------------------------------------------------

/// What a head looks like: cauterised or answered if it is answered, by whether its
/// answer names a killer; and if it is open, ready when all its blockers exist and are
/// answered, and blocked otherwise. A prior answer has no part in it.
pub proof fn states_follow_what_is_stored(g: Graph, head: HeadView)
    ensures
        derived::state_of(g, head) == (if head.status == Status::Answered {
            if head.answer is Some && head.answer->0.cauterised_by is Some {
                State::Cauterised
            } else {
                State::Answered
            }
        } else if forall|i: int|
            0 <= i < head.blocked_by.len() ==> g.dom().contains(#[trigger] head.blocked_by[i])
                && g[head.blocked_by[i]].status == Status::Answered {
            State::Ready
        } else {
            State::Blocked
        }),
        derived::can_be_asked(g, head) <==> derived::state_of(g, head) == State::Ready,
        derived::blocked(g, head) <==> exists|i: int|
            0 <= i < head.blocked_by.len() && !(g.dom().contains(#[trigger] head.blocked_by[i])
                && g[head.blocked_by[i]].status == Status::Answered),
        derived::cauterised(head) <==> head.answer is Some && head.answer->0.cauterised_by is Some,
        derived::finished(g) <==> forall|slug: Text| #[trigger]
            g.dom().contains(slug) ==> g[slug].status == Status::Answered,
        derived::unmet_blockers(g, head) == head.blocked_by.filter(
            |b: Text| !(g.dom().contains(b) && g[b].status == Status::Answered),
        ),
{
    if !derived::blocked(g, head) {
        assert forall|i: int| 0 <= i < head.blocked_by.len() implies g.dom().contains(
            #[trigger] head.blocked_by[i],
        ) && g[head.blocked_by[i]].status == Status::Answered by {
            assert(!derived::unmet(g, head.blocked_by[i]));
        }
    } else {
        let i = choose|i: int|
            0 <= i < head.blocked_by.len() && derived::unmet(g, #[trigger] head.blocked_by[i]);
        assert(!(g.dom().contains(head.blocked_by[i]) && g[head.blocked_by[i]].status
            == Status::Answered));
    }
    assert((|b: Text| derived::unmet(g, b)) =~= (|b: Text|
        !(g.dom().contains(b) && g[b].status == Status::Answered)));
}

/// The first line of a text is all that stands before its first line feed, but for a
/// carriage return right before it; a text without one is its own first line.
pub proof fn first_line_ends_at_the_first_line_feed(t: Text, n: int)
    requires
        0 <= n <= t.len(),
        forall|i: int| 0 <= i < n ==> #[trigger] t[i] != '\n',
        n < t.len() ==> t[n] == '\n',
    ensures
        n == t.len() ==> query::first_line_of(t) == t,
        n < t.len() && (n == 0 || t[n - 1] != '\r') ==> query::first_line_of(t) == t.take(n),
        n < t.len() && n > 0 && t[n - 1] == '\r' ==> query::first_line_of(t) == t.take(n - 1),
{
    lemma_line(t, n);
    if n == t.len() {
        assert(t.take(n) =~= t);
    } else if n > 0 {
        assert(t.take(n).last() == t[n - 1]);
        assert(t.take(n).drop_last() =~= t.take(n - 1));
    }
}

proof fn lemma_line(t: Text, n: int)
    requires
        0 <= n <= t.len(),
        forall|i: int| 0 <= i < n ==> #[trigger] t[i] != '\n',
        n < t.len() ==> t[n] == '\n',
    ensures
        query::up_to_line_feed(t) == t.take(n),
    decreases t.len(),
{
    if n == 0 {
        assert(t.take(0) =~= Seq::<char>::empty());
    } else {
        assert(t[0] != '\n');
        let rest = t.skip(1);
        assert forall|i: int| 0 <= i < n - 1 implies #[trigger] rest[i] != '\n' by {
            assert(t[i + 1] != '\n');
        }
        lemma_line(rest, n - 1);
        assert(seq![t[0]] + rest.take(n - 1) =~= t.take(n));
    }
}

// ---------------------------------------------------------------------------
// Rows
// ---------------------------------------------------------------------------

/// A row holds the slug that its head is filed under, the question and the status that
/// are stored there, and what the head looks like. Its summary is the first line of
/// the present answer; that of a prior answer stands apart, and only where there is no
/// present one.
pub proof fn row_shows_the_stored_head(g: Graph, slug: Text)
    ensures
        query::row_of(g, slug).slug == slug,
        query::row_of(g, slug).question == g[slug].question,
        query::row_of(g, slug).status == g[slug].status,
        query::row_of(g, slug).state == derived::state_of(g, g[slug]),
        g[slug].answer is None ==> query::row_of(g, slug).summary is None,
        g[slug].answer matches Some(answer) ==> query::row_of(g, slug).summary == Some(
            query::first_line_of(answer.text),
        ),
        g[slug].answer is Some || g[slug].prior is None ==> query::row_of(g, slug).prior_summary
            is None,
        g[slug].answer is None ==> (g[slug].prior matches Some(prior) ==> query::row_of(
            g,
            slug,
        ).prior_summary == Some(query::first_line_of(prior.text))),
{
}

/// The rows of a list of slugs: one for each, in the same order, with the question and
/// the status that are stored in the head of that slug.
pub proof fn rows_show_the_stored_heads(g: Graph, slugs: Seq<Text>, i: int)
    requires
        0 <= i < slugs.len(),
    ensures
        query::rows_of(g, slugs).len() == slugs.len(),
        query::rows_of(g, slugs)[i].slug == slugs[i],
        query::rows_of(g, slugs)[i].question == g[slugs[i]].question,
        query::rows_of(g, slugs)[i].status == g[slugs[i]].status,
        query::rows_of(g, slugs)[i].state == derived::state_of(g, g[slugs[i]]),
        g[slugs[i]].answer matches Some(answer) ==> query::rows_of(g, slugs)[i].summary == Some(
            query::first_line_of(answer.text),
        ),
        g[slugs[i]].answer is None ==> query::rows_of(g, slugs)[i].summary is None,
        g[slugs[i]].answer is None ==> (g[slugs[i]].prior matches Some(prior) ==> query::rows_of(
            g,
            slugs,
        )[i].prior_summary == Some(query::first_line_of(prior.text))),
        g[slugs[i]].answer is Some || g[slugs[i]].prior is None ==> query::rows_of(
            g,
            slugs,
        )[i].prior_summary is None,
{
    row_shows_the_stored_head(g, slugs[i]);
}

/// The rows of what can be asked: every one is of a head that is open and whose
/// blockers are all answered, every such head has exactly one, and they stand in the
/// order in which the tree is read.
pub proof fn ready_lists_what_can_be_asked(g: Graph, slug: Text)
    requires
        g.dom().finite(),
    ensures
        query::ready_order(g).contains(slug) <==> g.dom().contains(slug) && g[slug].status
            == Status::Open && forall|i: int|
            0 <= i < g[slug].blocked_by.len() ==> g.dom().contains(
                #[trigger] g[slug].blocked_by[i],
            ) && g[g[slug].blocked_by[i]].status == Status::Answered,
        query::ready_order(g).no_duplicates(),
        query::ready_order(g) == query::read_order(g).filter(
            |x: Text| derived::state_of(g, g[x]) == State::Ready,
        ),
        query::read_order(g).contains(slug) <==> g.dom().contains(slug),
        query::read_order(g).no_duplicates(),
{
    let all = query::read_order(g);
    let p = query::askable(g);
    reading::every_head_is_read_once(g);
    states_follow_what_is_stored(g, g[slug]);
    assert(all.contains(slug) <==> all.to_set().contains(slug));
    if all.filter(p).contains(slug) {
        order::lemma_kept_is_listed(all, p, slug);
    }
    if all.contains(slug) && p(slug) {
        let i = choose|i: int| 0 <= i < all.len() && all[i] == slug;
        all.lemma_filter_contains(p, i);
    }
    lemma_filter_keeps_apart(all, p);
    assert(p =~= (|x: Text| derived::state_of(g, g[x]) == State::Ready)) by {
        assert forall|x: Text| p(x) == (derived::state_of(g, g[x]) == State::Ready) by {
            states_follow_what_is_stored(g, g[x]);
        }
    }
}

proof fn lemma_filter_keeps_apart(all: Seq<Text>, p: spec_fn(Text) -> bool)
    requires
        all.no_duplicates(),
    ensures
        all.filter(p).no_duplicates(),
    decreases all.len(),
{
    reveal(Seq::filter);
    if all.len() > 0 {
        let front = all.drop_last();
        assert(front.no_duplicates());
        lemma_filter_keeps_apart(front, p);
        if p(all.last()) {
            let kept = front.filter(p);
            assert forall|i: int| 0 <= i < kept.len() implies kept[i] != all.last() by {
                assert(kept.contains(kept[i]));
                order::lemma_kept_is_listed(front, p, kept[i]);
                let k = choose|k: int| 0 <= k < front.len() && front[k] == kept[i];
                assert(all[k] == kept[i]);
            }
        }
    }
}

/// The head that comes next can be asked, and none that is read before it can. None
/// comes next only where none can be asked.
pub proof fn next_is_the_first_that_can_be_asked(g: Graph, i: int)
    requires
        g.dom().finite(),
        0 <= i < query::read_order(g).len(),
    ensures
        query::next_of(g) is None ==> derived::state_of(g, g[query::read_order(g)[i]])
            != State::Ready,
        query::next_of(g) == Some(query::read_order(g)[i]) ==> {
            &&& derived::state_of(g, g[query::read_order(g)[i]]) == State::Ready
            &&& forall|j: int|
                0 <= j < i ==> derived::state_of(g, g[#[trigger] query::read_order(g)[j]])
                    != State::Ready
        },
{
    let all = query::read_order(g);
    let p = query::askable(g);
    ready_lists_what_can_be_asked(g, all[i]);
    assert(all.contains(all[i]));
    states_follow_what_is_stored(g, g[all[i]]);
    if query::next_of(g) == Some(all[i]) {
        assert(all.filter(p)[0] == all[i]);
        assert(all.filter(p).contains(all[i]));
        assert forall|j: int| 0 <= j < i implies derived::state_of(g, g[#[trigger] all[j]])
            != State::Ready by {
            states_follow_what_is_stored(g, g[all[j]]);
            if p(all[j]) {
                let k = lemma_first_kept(all, p, 0, j);
                assert(all[k] == all[i]);
            }
        }
    }
}

/// The first of a list that a filter keeps is the first of what it keeps.
proof fn lemma_first_kept(all: Seq<Text>, p: spec_fn(Text) -> bool, from: int, known: int) -> (k: int)
    requires
        0 <= from <= known < all.len(),
        p(all[known]),
        forall|j: int| 0 <= j < from ==> !p(#[trigger] all[j]),
    ensures
        0 <= k <= known,
        all.filter(p).len() > 0,
        all.filter(p)[0] == all[k],
    decreases known - from,
{
    if p(all[from]) {
        lemma_filter_starts(all, p, from);
        from
    } else {
        lemma_first_kept(all, p, from + 1, known)
    }
}

proof fn lemma_filter_starts(all: Seq<Text>, p: spec_fn(Text) -> bool, k: int)
    requires
        0 <= k < all.len(),
        p(all[k]),
        forall|j: int| 0 <= j < k ==> !p(#[trigger] all[j]),
    ensures
        all.filter(p).len() > 0,
        all.filter(p)[0] == all[k],
    decreases all.len(),
{
    reveal(Seq::filter);
    let front = all.drop_last();
    if k == all.len() - 1 {
        if front.filter(p).len() > 0 {
            let x = front.filter(p)[0];
            assert(front.filter(p).contains(x));
            order::lemma_kept_is_listed(front, p, x);
            let j = choose|j: int| 0 <= j < front.len() && front[j] == x;
            assert(p(all[j]));
        }
    } else {
        lemma_filter_starts(front, p, k);
    }
}

// ---------------------------------------------------------------------------
// Details
// ---------------------------------------------------------------------------

/// A detail holds the stored head unchanged, in every field, its present and its prior
/// answer among them. With it come what the head looks like, the blockers that hold it
/// back, and its ancestors.
pub proof fn detail_shows_the_stored_head(g: Graph, slug: Text)
    ensures
        query::detail_of(g, slug).head.id == g[slug].id,
        query::detail_of(g, slug).head.slug == g[slug].slug,
        query::detail_of(g, slug).head.question == g[slug].question,
        query::detail_of(g, slug).head.parent == g[slug].parent,
        query::detail_of(g, slug).head.seq == g[slug].seq,
        query::detail_of(g, slug).head.blocked_by == g[slug].blocked_by,
        query::detail_of(g, slug).head.status == g[slug].status,
        query::detail_of(g, slug).head.rev == g[slug].rev,
        query::detail_of(g, slug).head.created_at == g[slug].created_at,
        query::detail_of(g, slug).head.updated_at == g[slug].updated_at,
        query::detail_of(g, slug).head.answer == g[slug].answer,
        query::detail_of(g, slug).head.prior == g[slug].prior,
        query::detail_of(g, slug).state == derived::state_of(g, g[slug]),
        query::detail_of(g, slug).open_blockers == g[slug].blocked_by.filter(
            |b: Text| !(g.dom().contains(b) && g[b].status == Status::Answered),
        ),
        query::detail_of(g, slug).ancestors == walk::ancestry(g, slug),
{
    states_follow_what_is_stored(g, g[slug]);
}

/// The ancestors of a head lead down to it from the root: the last is its parent, each
/// is the parent of the next, none occurs twice, and the line goes up until there is no
/// parent that exists and is not in it already.
pub proof fn ancestors_lead_down_from_the_root(g: Graph, slug: Text)
    requires
        g.dom().finite(),
        g.dom().contains(slug),
    ensures
        ({
            let line = walk::ancestry(g, slug);
            &&& line.len() > 0 ==> g[slug].parent == Some(line.last())
            &&& line.len() == 0 ==> (g[slug].parent matches Some(up) ==> !g.dom().contains(up) || up
                == slug)
            &&& forall|i: int| 0 <= i < line.len() ==> g.dom().contains(#[trigger] line[i])
            &&& forall|i: int| 0 <= i < line.len() ==> #[trigger] line[i] != slug
            &&& forall|i: int|
                0 < i < line.len() ==> g[#[trigger] line[i]].parent == Some(line[i - 1])
            &&& line.no_duplicates()
            &&& line.len() > 0 ==> (g[line[0]].parent matches Some(up) ==> !g.dom().contains(up)
                || up == slug || line.contains(up))
        }),
{
    walk::ancestry_exists(g, slug);
    let line = walk::ancestry(g, slug);
    let whole = line.push(slug);
    if line.len() > 0 {
        assert(whole[line.len() as int] == slug);
        assert(whole[line.len() - 1] == line.last());
        assert(whole[0] == line[0]);
        if let Some(up) = g[line[0]].parent {
            if whole.contains(up) && up != slug {
                let k = choose|k: int| 0 <= k < whole.len() && whole[k] == up;
                assert(line[k] == up);
            }
        }
    } else {
        assert(whole =~= seq![slug]);
        assert(whole[0] == slug);
        if let Some(up) = g[slug].parent {
            if whole.contains(up) {
                let k = choose|k: int| 0 <= k < whole.len() && whole[k] == up;
                assert(whole[k] == slug);
            }
        }
    }
    assert forall|i: int| 0 <= i < line.len() implies #[trigger] line[i] != slug by {
        assert(whole[i] == line[i]);
        assert(whole[line.len() as int] == slug);
    }
    assert forall|i: int| 0 < i < line.len() implies g[#[trigger] line[i]].parent == Some(
        line[i - 1],
    ) by {
        assert(whole[i] == line[i]);
        assert(whole[i - 1] == line[i - 1]);
    }
    assert forall|i: int, j: int| 0 <= i < line.len() && 0 <= j < line.len() && i != j implies line[i]
        != line[j] by {
        assert(whole[i] == line[i]);
        assert(whole[j] == line[j]);
    }
}

/// What a cold start is handed: what the tree is for, its counts, what comes next, a
/// row for every head in the order in which the tree is read, and in full the head that
/// comes next behind its ancestors, each as it is stored.
pub proof fn resuming_shows_the_whole_tree(tree: TreeView, i: int)
    requires
        tree.heads.dom().finite(),
    ensures
        ({
            let g = tree.heads;
            let resume = query::resume_of(tree);
            &&& resume.intent == tree.intent
            &&& resume.next == query::next_of(g)
            &&& resume.counts == query::counts_of(tree)
            &&& resume.skeleton.len() == g.dom().len()
            &&& 0 <= i < resume.skeleton.len() ==> {
                let slug = query::read_order(g)[i];
                &&& g.dom().contains(slug)
                &&& resume.skeleton[i].slug == slug
                &&& resume.skeleton[i].question == g[slug].question
                &&& resume.skeleton[i].status == g[slug].status
                &&& resume.skeleton[i].state == derived::state_of(g, g[slug])
            }
            &&& query::next_of(g) is None ==> resume.hydrated.len() == 0
            &&& query::next_of(g) matches Some(next) ==> {
                let line = walk::ancestry(g, next);
                &&& resume.hydrated.len() == line.len() + 1
                &&& resume.hydrated.last().head == g[next]
                &&& 0 <= i < line.len() ==> resume.hydrated[i].head == g[line[i]]
                &&& 0 <= i < line.len() ==> resume.hydrated[i].state == derived::state_of(
                    g,
                    g[line[i]],
                )
                &&& 0 <= i < line.len() ==> resume.hydrated[i].ancestors == walk::ancestry(
                    g,
                    line[i],
                )
                &&& resume.hydrated.last().ancestors == line
            }
        }),
{
    let g = tree.heads;
    let all = query::read_order(g);
    reading::every_head_is_read_once(g);
    all.unique_seq_to_set();
    if 0 <= i < all.len() {
        rows_show_the_stored_heads(g, all, i);
        assert(all.contains(all[i]));
        assert(all.to_set().contains(all[i]));
    }
    if let Some(next) = query::next_of(g) {
        detail_shows_the_stored_head(g, next);
        let line = walk::ancestry(g, next);
        let slugs = line.push(next);
        assert(slugs[line.len() as int] == next);
        if 0 <= i < line.len() {
            assert(slugs[i] == line[i]);
        }
    }
}

// ---------------------------------------------------------------------------
// Counts
// ---------------------------------------------------------------------------

/// Every count is the number of heads that it speaks of: those stored as answered and
/// as open, and among the open those whose blockers are all answered and the others,
/// and among the answered those whose answer names a killer.
pub proof fn counts_count_the_heads(tree: TreeView)
    ensures
        ({
            let g = tree.heads;
            let counts = query::counts_of(tree);
            &&& counts.tree == tree.slug
            &&& counts.answered == Set::new(
                |x: Text| g.dom().contains(x) && g[x].status == Status::Answered,
            ).len()
            &&& counts.open == Set::new(
                |x: Text| g.dom().contains(x) && g[x].status == Status::Open,
            ).len()
            &&& counts.ready == Set::new(
                |x: Text|
                    {
                        &&& g.dom().contains(x)
                        &&& g[x].status == Status::Open
                        &&& forall|i: int|
                            0 <= i < g[x].blocked_by.len() ==> g.dom().contains(
                                #[trigger] g[x].blocked_by[i],
                            ) && g[g[x].blocked_by[i]].status == Status::Answered
                    },
            ).len()
            &&& counts.blocked == Set::new(
                |x: Text|
                    {
                        &&& g.dom().contains(x)
                        &&& g[x].status == Status::Open
                        &&& !forall|i: int|
                            0 <= i < g[x].blocked_by.len() ==> g.dom().contains(
                                #[trigger] g[x].blocked_by[i],
                            ) && g[g[x].blocked_by[i]].status == Status::Answered
                    },
            ).len()
            &&& counts.cauterised == Set::new(
                |x: Text|
                    {
                        &&& g.dom().contains(x)
                        &&& g[x].status == Status::Answered
                        &&& g[x].answer is Some
                        &&& g[x].answer->0.cauterised_by is Some
                    },
            ).len()
            &&& counts.done <==> forall|x: Text| #[trigger]
                g.dom().contains(x) ==> g[x].status == Status::Answered
        }),
{
    let g = tree.heads;
    assert forall|x: Text, s: State| #[trigger]
        query::in_state(g, s).contains(x) <==> g.dom().contains(x) && derived::state_of(g, g[x])
            == s by {
    }
    assert(query::with_status(g, Status::Answered) =~= Set::new(
        |x: Text| g.dom().contains(x) && g[x].status == Status::Answered,
    ));
    assert(query::with_status(g, Status::Open) =~= Set::new(
        |x: Text| g.dom().contains(x) && g[x].status == Status::Open,
    ));
    let ready = Set::new(
        |x: Text|
            {
                &&& g.dom().contains(x)
                &&& g[x].status == Status::Open
                &&& forall|i: int|
                    0 <= i < g[x].blocked_by.len() ==> g.dom().contains(
                        #[trigger] g[x].blocked_by[i],
                    ) && g[g[x].blocked_by[i]].status == Status::Answered
            },
    );
    let blocked = Set::new(
        |x: Text|
            {
                &&& g.dom().contains(x)
                &&& g[x].status == Status::Open
                &&& !forall|i: int|
                    0 <= i < g[x].blocked_by.len() ==> g.dom().contains(
                        #[trigger] g[x].blocked_by[i],
                    ) && g[g[x].blocked_by[i]].status == Status::Answered
            },
    );
    let killed = Set::new(
        |x: Text|
            {
                &&& g.dom().contains(x)
                &&& g[x].status == Status::Answered
                &&& g[x].answer is Some
                &&& g[x].answer->0.cauterised_by is Some
            },
    );
    assert forall|x: Text| query::in_state(g, State::Ready).contains(x) <==> ready.contains(x) by {
        states_follow_what_is_stored(g, g[x]);
    }
    assert forall|x: Text| query::in_state(g, State::Blocked).contains(x) <==> blocked.contains(
        x,
    ) by {
        states_follow_what_is_stored(g, g[x]);
    }
    assert forall|x: Text| query::in_state(g, State::Cauterised).contains(x) <==> killed.contains(
        x,
    ) by {
        states_follow_what_is_stored(g, g[x]);
    }
    assert(query::in_state(g, State::Ready) =~= ready);
    assert(query::in_state(g, State::Blocked) =~= blocked);
    assert(query::in_state(g, State::Cauterised) =~= killed);
}

// ---------------------------------------------------------------------------
// Looks
// ---------------------------------------------------------------------------

/// A look shows what it is asked for, with success, but that the counts of a tree with
/// open heads exit with a code of their own. Only a head that does not exist is
/// refused.
pub proof fn looks_show_what_they_are_asked_for(tree: TreeView, q: Query)
    ensures
        cli::seen(tree, q) == (match q {
            Query::Status => Ok::<OutputView, ErrorView>(OutputView::Counts(query::counts_of(tree))),
            Query::Ready => Ok(
                OutputView::Rows(query::rows_of(tree.heads, query::ready_order(tree.heads))),
            ),
            Query::Next => match query::next_of(tree.heads) {
                Some(slug) => Ok(OutputView::Detail(Some(query::detail_of(tree.heads, slug)))),
                None => Ok(OutputView::Detail(None)),
            },
            Query::Show(slug) => if tree.heads.dom().contains(slug@) {
                Ok(OutputView::Detail(Some(query::detail_of(tree.heads, slug@))))
            } else {
                Err(ErrorView::UnknownHead { slug: slug@ })
            },
            Query::Resume => Ok(OutputView::Resume(query::resume_of(tree))),
            Query::Tree(colour) => Ok(OutputView::Drawing(render::drawing(tree, colour))),
        }),
        cli::exit_of(tree, q) == 4 <==> q is Status && exists|x: Text| #[trigger]
            tree.heads.dom().contains(x) && tree.heads[x].status == Status::Open,
        cli::exit_of(tree, q) == 4 || cli::exit_of(tree, q) == 0,
{
}

/// What is shown of one head, by `show` or as the head that comes next, is that head as
/// it is stored.
pub proof fn shown_heads_are_the_stored_heads(tree: TreeView, slug: String)
    requires
        tree.heads.dom().contains(slug@),
    ensures
        cli::seen(tree, Query::Show(slug)) matches Ok(OutputView::Detail(Some(detail)))
            && detail.head == tree.heads[slug@] && detail.head.prior == tree.heads[slug@].prior
            && detail.head.answer == tree.heads[slug@].answer,
        query::next_of(tree.heads) matches Some(next) ==> {
            &&& cli::seen(tree, Query::Next) matches Ok(OutputView::Detail(Some(detail)))
            &&& detail.head == tree.heads[next]
            &&& detail.head.prior == tree.heads[next].prior
            &&& detail.head.answer == tree.heads[next].answer
        },
{
    detail_shows_the_stored_head(tree.heads, slug@);
}

/// A row of the list of trees names its tree, says whether it is the active one, and
/// has either its counts or the reason why it cannot be read.
pub proof fn listed_trees_say_what_they_are(slug: Text, found: Result<Tree, Error>, head: Option<Text>)
    ensures
        cli::listed_of(slug, found, head).tree == slug,
        cli::listed_of(slug, found, head).current <==> head == Some(slug),
        found matches Ok(tree) ==> {
            &&& cli::listed_of(slug, found, head).counts == Some(query::counts_of(tree@))
            &&& cli::listed_of(slug, found, head).error is None
        },
        found matches Err(e) ==> {
            &&& cli::listed_of(slug, found, head).counts is None
            &&& cli::listed_of(slug, found, head).error == Some(crate::error::message_of(e@))
        },
{
}

// ---------------------------------------------------------------------------
// Candidates
// ---------------------------------------------------------------------------

/// The candidates for a head are the heads of the tree, or those that are answered, in
/// the order in which the tree is read. Each has its mark and the first line of its
/// question beside it.
pub proof fn head_candidates_are_the_heads(g: Graph, answered_only: bool, i: int)
    requires
        g.dom().finite(),
    ensures
        ({
            let list = complete::head_candidates_of(g, answered_only);
            let wanted = query::read_order(g).filter(
                |x: Text| !answered_only || g[x].status == Status::Answered,
            );
            &&& list.len() == wanted.len()
            &&& 0 <= i < list.len() ==> {
                &&& list[i].value == wanted[i]
                &&& list[i].order == i
                &&& list[i].help == Some(
                    seq![render::glyph_of(derived::state_of(g, g[wanted[i]])), ' ']
                        + query::first_line_of(g[wanted[i]].question),
                )
            }
        }),
{
    assert(complete::wanted(g, answered_only) =~= (|x: Text|
        !answered_only || g[x].status == Status::Answered));
}

/// The candidate for a tree is its slug, with the first line of its intent beside it
/// where there is one.
pub proof fn tree_candidates_show_the_intent(value: Text, intent: Option<String>, at: nat)
    ensures
        complete::candidate_of(value, complete::tree_help(intent), at).value == value,
        complete::candidate_of(value, complete::tree_help(intent), at).order == at,
        complete::candidate_of(value, complete::tree_help(intent), at).help == (match intent {
            Some(t) => if query::first_line_of(t@).len() == 0 {
                None
            } else {
                Some(query::first_line_of(t@))
            },
            None => None,
        }),
{
}

// ---------------------------------------------------------------------------
// The drawing
// ---------------------------------------------------------------------------

/// The marks of the states, and how each is painted.
pub proof fn marks_tell_the_states_apart()
    ensures
        render::glyph_of(State::Answered) == '●',
        render::glyph_of(State::Ready) == '○',
        render::glyph_of(State::Blocked) == '◌',
        render::glyph_of(State::Cauterised) == '⊘',
        render::sgr_of(State::Answered) == "32"@,
        render::sgr_of(State::Ready) == "1;36"@,
        render::sgr_of(State::Blocked) == "33"@,
        render::sgr_of(State::Cauterised) == "2;31"@,
{
}

/// The header names the tree and counts its answered and its open heads.
pub proof fn header_counts_the_heads(tree: TreeView, colour: Colour)
    ensures
        render::drawing(tree, colour) == tree.slug + "  ("@ + text::decimal(
            query::counts_of(tree).answered,
        ) + " answered, "@ + text::decimal(query::counts_of(tree).open) + " open)\n"@
            + text::concat(render::lines_of(colour, render::rows_of(tree.heads))),
{
}

/// There is one row for each head, in the order in which the tree is read, with the
/// slug and the state of that head; the head that comes next is marked, and no other.
pub proof fn rows_are_the_heads(g: Graph, i: int)
    requires
        g.dom().finite(),
        0 <= i < query::read_order(g).len(),
    ensures
        render::rows_of(g).len() == query::read_order(g).len(),
        render::rows_of(g)[i].slug == query::read_order(g)[i],
        render::rows_of(g)[i].state == derived::state_of(g, g[query::read_order(g)[i]]),
        render::rows_of(g)[i].next <==> query::next_of(g) == Some(query::read_order(g)[i]),
        render::rows_of(g)[i].prefix == render::prefix_of(reading::outline(g), i),
{
}

/// What a row says behind its slug. The head that comes next is marked. Otherwise an
/// answered head has the first line of its present answer, or the head that killed it,
/// a blocked one the blockers that hold it back, and one that is ready has nothing,
/// whatever it was answered before.
pub proof fn summaries_tell_why(g: Graph, i: int)
    requires
        g.dom().finite(),
        0 <= i < query::read_order(g).len(),
    ensures
        ({
            let slug = query::read_order(g)[i];
            let head = g[slug];
            let summary = render::rows_of(g)[i].summary;
            let next = query::next_of(g) == Some(slug);
            &&& next ==> summary == "← next"@
            &&& !next && head.status == Status::Open && (forall|k: int|
                0 <= k < head.blocked_by.len() ==> g.dom().contains(#[trigger] head.blocked_by[k])
                    && g[head.blocked_by[k]].status == Status::Answered) ==> summary.len() == 0
            &&& !next && head.status == Status::Open && !(forall|k: int|
                0 <= k < head.blocked_by.len() ==> g.dom().contains(#[trigger] head.blocked_by[k])
                    && g[head.blocked_by[k]].status == Status::Answered) ==> summary
                == "blocked by "@ + text::joined(
                head.blocked_by.filter(
                    |b: Text| !(g.dom().contains(b) && g[b].status == Status::Answered),
                ),
                ", "@,
            )
            &&& head.status == Status::Answered ==> !next
            &&& head.status == Status::Answered && head.answer is None ==> summary.len() == 0
            &&& head.status == Status::Answered ==> (head.answer matches Some(answer) ==> {
                &&& answer.cauterised_by is None ==> summary == query::first_line_of(answer.text)
                &&& answer.cauterised_by matches Some(by) ==> summary == "cauterised by "@ + by
            })
        }),
{
    let slug = query::read_order(g)[i];
    states_follow_what_is_stored(g, g[slug]);
    next_is_the_first_that_can_be_asked(g, i);
}

/// A line of the plain drawing: the connectors, the mark, the slug and, where there is
/// something to say, blanks up to the column and the summary. A line with nothing to
/// say ends at the slug.
pub proof fn plain_lines_end_at_the_slug_or_the_summary(row: RowView, longest: nat)
    requires
        row.label().len() <= longest,
    ensures
        row.label() == row.prefix + seq![render::glyph_of(row.state), ' '] + row.slug,
        row.summary.len() == 0 ==> render::line_of(Colour::Plain, row, longest) == row.prefix
            + seq![render::glyph_of(row.state), ' '] + row.slug + seq!['\n'],
        row.summary.len() > 0 ==> render::line_of(Colour::Plain, row, longest) == row.prefix
            + seq![render::glyph_of(row.state), ' '] + row.slug + text::spaces(
            (longest - row.label().len() + 3) as nat,
        ) + row.summary + seq!['\n'],
{
    let label = row.prefix + seq![render::glyph_of(row.state), ' '] + row.slug;
    assert(row.label() =~= label);
    assert(row.prefix + seq![render::glyph_of(row.state)] + seq![' '] + row.slug =~= label);
    assert(render::label_of(Colour::Plain, row) == label);
    if row.summary.len() == 0 {
        assert(label + Seq::<char>::empty() + seq!['\n'] =~= label + seq!['\n']);
    } else {
        let blank = text::spaces((longest - row.label().len() + 3) as nat);
        assert(label + (blank + row.summary) + seq!['\n'] =~= label + blank + row.summary + seq![
            '\n',
        ]);
    }
}

/// The drawing has one line for each row, all with the same column.
pub proof fn lines_are_those_of_the_rows(colour: Colour, rows: Seq<RowView>, i: int)
    requires
        0 <= i < rows.len(),
    ensures
        render::lines_of(colour, rows).len() == rows.len(),
        render::lines_of(colour, rows)[i] == render::line_of(
            colour,
            rows[i],
            render::widest(rows, rows.len()),
        ),
        rows[i].label().len() <= render::widest(rows, rows.len()),
{
    lemma_widest(rows, rows.len(), i);
}

/// The line of a head that can be asked, and does not come next, ends at its slug,
/// whatever it was answered before.
pub proof fn ready_heads_are_drawn_without_a_summary(g: Graph, i: int)
    requires
        g.dom().finite(),
        0 <= i < query::read_order(g).len(),
        g[query::read_order(g)[i]].status == Status::Open,
        forall|k: int|
            0 <= k < g[query::read_order(g)[i]].blocked_by.len() ==> g.dom().contains(
                #[trigger] g[query::read_order(g)[i]].blocked_by[k],
            ) && g[g[query::read_order(g)[i]].blocked_by[k]].status == Status::Answered,
        query::next_of(g) != Some(query::read_order(g)[i]),
    ensures
        render::lines_of(Colour::Plain, render::rows_of(g))[i] == render::prefix_of(
            reading::outline(g),
            i,
        ) + seq!['○', ' '] + query::read_order(g)[i] + seq!['\n'],
{
    let rows = render::rows_of(g);
    states_follow_what_is_stored(g, g[query::read_order(g)[i]]);
    rows_are_the_heads(g, i);
    summaries_tell_why(g, i);
    lines_are_those_of_the_rows(Colour::Plain, rows, i);
    plain_lines_end_at_the_slug_or_the_summary(rows[i], render::widest(rows, rows.len()));
}

/// The line of an answered head ends in the first line of its present answer, in the
/// summary column, unless that is empty or another answer killed the question.
pub proof fn answered_heads_are_drawn_with_their_answer(g: Graph, i: int)
    requires
        g.dom().finite(),
        0 <= i < query::read_order(g).len(),
        g[query::read_order(g)[i]].status == Status::Answered,
        g[query::read_order(g)[i]].answer is Some,
        g[query::read_order(g)[i]].answer->0.cauterised_by is None,
        query::first_line_of(g[query::read_order(g)[i]].answer->0.text).len() > 0,
    ensures
        ({
            let rows = render::rows_of(g);
            let slug = query::read_order(g)[i];
            render::lines_of(Colour::Plain, rows)[i] == render::prefix_of(reading::outline(g), i)
                + seq!['●', ' '] + slug + text::spaces(
                (render::widest(rows, rows.len()) - rows[i].label().len() + 3) as nat,
            ) + query::first_line_of(g[slug].answer->0.text) + seq!['\n']
        }),
{
    let rows = render::rows_of(g);
    let slug = query::read_order(g)[i];
    let longest = render::widest(rows, rows.len());
    assert(rows[i].prefix == render::prefix_of(reading::outline(g), i) && rows[i].state
        == State::Answered && rows[i].slug == slug && rows[i].summary == query::first_line_of(
        g[slug].answer->0.text,
    )) by {
        states_follow_what_is_stored(g, g[slug]);
        rows_are_the_heads(g, i);
        summaries_tell_why(g, i);
    }
    assert(rows[i].label().len() <= longest && render::lines_of(Colour::Plain, rows)[i]
        == render::line_of(Colour::Plain, rows[i], longest)) by {
        lines_are_those_of_the_rows(Colour::Plain, rows, i);
    }
    plain_lines_end_at_the_slug_or_the_summary(rows[i], longest);
}

proof fn lemma_widest(rows: Seq<RowView>, n: nat, i: int)
    requires
        0 <= i < n <= rows.len(),
    ensures
        rows[i].label().len() <= render::widest(rows, n),
    decreases n,
{
    if i < n - 1 {
        lemma_widest(rows, (n - 1) as nat, i);
    }
}

/// The summary column begins three columns behind the longest label of the drawing.
pub proof fn column_is_behind_the_longest_label(rows: Seq<RowView>)
    requires
        rows.len() > 0,
    ensures
        exists|i: int|
            0 <= i < rows.len() && (#[trigger] rows[i]).label().len() == render::widest(
                rows,
                rows.len(),
            ),
        forall|i: int|
            0 <= i < rows.len() ==> (#[trigger] rows[i]).label().len() <= render::widest(
                rows,
                rows.len(),
            ),
{
    lemma_widest_is_one(rows, rows.len());
    assert forall|i: int| 0 <= i < rows.len() implies (#[trigger] rows[i]).label().len()
        <= render::widest(rows, rows.len()) by {
        lemma_widest(rows, rows.len(), i);
    }
}

proof fn lemma_widest_is_one(rows: Seq<RowView>, n: nat)
    requires
        0 < n <= rows.len(),
    ensures
        exists|i: int|
            0 <= i < n && (#[trigger] rows[i]).label().len() == render::widest(rows, n),
    decreases n,
{
    if n == 1 {
        assert(render::widest(rows, 0) == 0);
        assert(rows[0].label().len() == render::widest(rows, 1));
    } else {
        lemma_widest_is_one(rows, (n - 1) as nat);
        let k = choose|k: int|
            0 <= k < n - 1 && (#[trigger] rows[k]).label().len() == render::widest(
                rows,
                (n - 1) as nat,
            );
        assert(rows[k].label().len() == render::widest(rows, n) || rows[n - 1].label().len()
            == render::widest(rows, n));
    }
}

/// The connectors of a row: four columns for each depth above it, a bar where another
/// row is to follow at that depth before one that lies higher and a blank where none
/// is, and then four that hang the row itself, by whether another follows beside it.
pub proof fn connectors_lead_to_what_follows(stops: Seq<reading::Stop>, i: int, d: nat)
    requires
        0 <= i < stops.len(),
        d <= stops[i].1,
    ensures
        ({
            let follows = exists|j: int|
                #![trigger stops[j]]
                i < j < stops.len() && stops[j].1 == d && forall|k: int|
                    i < k < j ==> (#[trigger] stops[k]).1 > d;
            let prefix = render::prefix_of(stops, i);
            &&& prefix.len() == 4 * (stops[i].1 + 1)
            &&& d < stops[i].1 ==> prefix.subrange(4 * d as int, 4 * d as int + 4) == (if follows {
                "│   "@
            } else {
                "    "@
            })
            &&& d == stops[i].1 ==> prefix.subrange(4 * d as int, 4 * d as int + 4) == (if follows {
                "├── "@
            } else {
                "└── "@
            })
        }),
{
    reveal_strlit("│   ");
    reveal_strlit("    ");
    reveal_strlit("├── ");
    reveal_strlit("└── ");
    let n = stops[i].1;
    let prefix = render::prefix_of(stops, i);
    let rails = render::rails(stops, i, n);
    lemma_rails(stops, i, n, d);
    if d < n {
        assert(prefix.subrange(4 * d as int, 4 * d as int + 4) =~= rails.subrange(
            4 * d as int,
            4 * d as int + 4,
        ));
    } else {
        let last = if render::open_below(stops, i, n) {
            "├── "@
        } else {
            "└── "@
        };
        assert(prefix.subrange(4 * d as int, 4 * d as int + 4) =~= last);
    }
}

proof fn lemma_rails(stops: Seq<reading::Stop>, i: int, n: nat, d: nat)
    ensures
        render::rails(stops, i, n).len() == 4 * n,
        d < n ==> render::rails(stops, i, n).subrange(4 * d as int, 4 * d as int + 4) == (
        if render::open_below(stops, i, d) {
            "│   "@
        } else {
            "    "@
        }),
    decreases n,
{
    reveal_strlit("│   ");
    reveal_strlit("    ");
    if n > 0 {
        let m = (n - 1) as nat;
        let front = render::rails(stops, i, m);
        let all = render::rails(stops, i, n);
        lemma_rails(stops, i, m, d);
        if d < m {
            assert(all.subrange(4 * d as int, 4 * d as int + 4) =~= front.subrange(
                4 * d as int,
                4 * d as int + 4,
            ));
        } else if d == m {
            let last = if render::open_below(stops, i, d) {
                "│   "@
            } else {
                "    "@
            };
            assert(all.subrange(4 * d as int, 4 * d as int + 4) =~= last);
        }
    }
}

/// How a painted line is put together: the connectors and the summary dimmed, the mark
/// in the colour of its state, the mark of the next head bright, and the slug as it is.
pub proof fn painted_lines_are_plain_lines_in_paint(row: RowView, longest: nat, t: Text, sgr: Text)
    ensures
        render::painted(Colour::Plain, sgr, t) == t,
        render::painted(Colour::Ansi, sgr, t) == "\x1b["@ + sgr + "m"@ + t + "\x1b[0m"@,
        render::label_of(Colour::Ansi, row) == "\x1b[2m"@ + row.prefix + "\x1b[0m"@
            + render::painted(Colour::Ansi, render::sgr_of(row.state), seq![
            render::glyph_of(row.state),
        ]) + seq![' '] + row.slug,
        row.summary.len() == 0 ==> render::column_of(Colour::Ansi, row, longest).len() == 0,
        row.summary.len() > 0 && row.next ==> render::column_of(Colour::Ansi, row, longest)
            == text::spaces((longest - row.label().len() + 3) as nat) + ("\x1b[1m"@ + row.summary
            + "\x1b[0m"@),
        row.summary.len() > 0 && !row.next ==> render::column_of(Colour::Ansi, row, longest)
            == text::spaces((longest - row.label().len() + 3) as nat) + ("\x1b[2m"@ + row.summary
            + "\x1b[0m"@),
        render::line_of(Colour::Ansi, row, longest) == render::label_of(Colour::Ansi, row)
            + render::column_of(Colour::Ansi, row, longest) + seq!['\n'],
{
    reveal_strlit("\x1b[");
    reveal_strlit("m");
    reveal_strlit("2");
    reveal_strlit("1");
    reveal_strlit("\x1b[2m");
    reveal_strlit("\x1b[1m");
    assert("\x1b["@ + "2"@ + "m"@ =~= "\x1b[2m"@);
    assert("\x1b["@ + "1"@ + "m"@ =~= "\x1b[1m"@);
}

} // verus!

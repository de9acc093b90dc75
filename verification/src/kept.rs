//! What every operation writes, and what it leaves alone, field by field.
//!
//! The contracts of the operations speak of a head that was answered, reopened or
//! moved. Here it is said what that comes to: which field of which head holds what
//! afterwards, and that no other field of any head is touched.

use vstd::prelude::*;

use crate::cascade;
use crate::cli::{self, Edit};
use crate::error::{Edge, ErrorView};
use crate::graph::{self, SproutView};
use crate::model::{self, AnswerView, Graph, HeadView, Rejected, Status, Timestamp, TreeView};
use crate::order;
use crate::query;
use crate::slug as slugs;
use crate::text::{self, Text};
use crate::walk;

verus! {

// ---------------------------------------------------------------------------
// One head
// ---------------------------------------------------------------------------

/// An answer is stored as it was given. What it supersedes is the answer that was
/// there, or the one before it where there was none. It counts as one revision more,
/// and nothing else of the head changes.
pub proof fn answering_writes_the_answer(old: HeadView, answer: AnswerView, new: HeadView)
    requires
        old.rev < u32::MAX,
        old.answered(answer).now_is(new),
    ensures
        new.answer == Some(answer),
        new.status == Status::Answered,
        new.rev == old.rev + 1,
        old.answer is Some ==> new.prior == old.answer,
        old.answer is None ==> new.prior == old.prior,
        new.id == old.id,
        new.slug == old.slug,
        new.question == old.question,
        new.parent == old.parent,
        new.seq == old.seq,
        new.blocked_by == old.blocked_by,
        new.created_at == old.created_at,
        new.updated_at.nanosecond == 0,
        model::FIRST_SECOND <= new.updated_at.second <= model::LAST_SECOND,
{
}

/// A head that is reopened has no answer and is open. The answer that it had is kept
/// as its prior one, and nothing else of the head changes.
pub proof fn reopening_withdraws_the_answer(old: HeadView, new: HeadView)
    requires
        old.reopened().now_is(new),
    ensures
        new.answer is None,
        new.status == Status::Open,
        old.answer is Some ==> new.prior == old.answer,
        old.answer is None ==> new.prior == old.prior,
        new.id == old.id,
        new.slug == old.slug,
        new.question == old.question,
        new.parent == old.parent,
        new.seq == old.seq,
        new.blocked_by == old.blocked_by,
        new.rev == old.rev,
        new.created_at == old.created_at,
        new.updated_at.nanosecond == 0,
        model::FIRST_SECOND <= new.updated_at.second <= model::LAST_SECOND,
{
}

/// To reword a head changes its question and nothing else: it stays answered if it
/// was, with the same answer.
pub proof fn rewording_changes_the_question(old: HeadView, question: Text, new: HeadView)
    requires
        old.reworded(question).now_is(new),
    ensures
        new.question == question,
        new.id == old.id,
        new.slug == old.slug,
        new.parent == old.parent,
        new.seq == old.seq,
        new.blocked_by == old.blocked_by,
        new.status == old.status,
        new.rev == old.rev,
        new.created_at == old.created_at,
        new.answer == old.answer,
        new.prior == old.prior,
        new.updated_at.nanosecond == 0,
        model::FIRST_SECOND <= new.updated_at.second <= model::LAST_SECOND,
{
}

/// To move a head changes its parent and its number and nothing else: it stays
/// answered if it was, with the same answer.
pub proof fn moving_changes_the_seat(old: HeadView, parent: Option<Text>, seq: u32, new: HeadView)
    requires
        old.reseated(parent, seq).now_is(new),
    ensures
        new.parent == parent,
        new.seq == seq,
        new.id == old.id,
        new.slug == old.slug,
        new.question == old.question,
        new.blocked_by == old.blocked_by,
        new.status == old.status,
        new.rev == old.rev,
        new.created_at == old.created_at,
        new.answer == old.answer,
        new.prior == old.prior,
        new.updated_at.nanosecond == 0,
        model::FIRST_SECOND <= new.updated_at.second <= model::LAST_SECOND,
{
}

/// To gate a head anew changes its blockers, which are then the given ones, each
/// once and sorted, and nothing else.
pub proof fn gating_changes_the_blockers(old: HeadView, edges: Set<Text>, new: HeadView)
    requires
        edges.finite(),
        old.gated_by(edges).now_is(new),
    ensures
        forall|x: Text| #[trigger] new.blocked_by.contains(x) <==> edges.contains(x),
        forall|i: int, j: int|
            0 <= i < j < new.blocked_by.len() ==> text::before(
                #[trigger] new.blocked_by[i],
                #[trigger] new.blocked_by[j],
            ),
        new.id == old.id,
        new.slug == old.slug,
        new.question == old.question,
        new.parent == old.parent,
        new.seq == old.seq,
        new.status == old.status,
        new.rev == old.rev,
        new.created_at == old.created_at,
        new.answer == old.answer,
        new.prior == old.prior,
        new.updated_at.nanosecond == 0,
        model::FIRST_SECOND <= new.updated_at.second <= model::LAST_SECOND,
{
    order::by_text_is_strict();
    order::arrangement_exists(edges, order::by_text());
    assert forall|i: int, j: int| 0 <= i < j < new.blocked_by.len() implies text::before(
        #[trigger] new.blocked_by[i],
        #[trigger] new.blocked_by[j],
    ) by {
        assert(order::by_text()(new.blocked_by[i], new.blocked_by[j]));
    }
}

/// To record a time changes nothing else.
pub proof fn touching_changes_the_time(old: HeadView, at: Timestamp)
    ensures
        old.touched(at).updated_at == at,
        old.touched(at).id == old.id,
        old.touched(at).slug == old.slug,
        old.touched(at).question == old.question,
        old.touched(at).parent == old.parent,
        old.touched(at).seq == old.seq,
        old.touched(at).blocked_by == old.blocked_by,
        old.touched(at).status == old.status,
        old.touched(at).rev == old.rev,
        old.touched(at).created_at == old.created_at,
        old.touched(at).answer == old.answer,
        old.touched(at).prior == old.prior,
{
}

// ---------------------------------------------------------------------------
// Answers
// ---------------------------------------------------------------------------

/// After a cut the head has the answer that was given: the same text and rationale,
/// every rejected option with its reason, in the order in which they were given, and
/// nothing that killed it. Of the other heads, a revision that does not keep the
/// subtree reopens those that are answered and stand on this one, and no other is
/// touched.
pub proof fn cut_stores_what_was_given(
    g: Graph,
    h: Graph,
    slug: Text,
    answer: Text,
    rationale: Option<Text>,
    rejected: Seq<Rejected>,
    keep_subtree: bool,
)
    requires
        g.dom().contains(slug),
        g[slug].rev < u32::MAX,
        graph::answers(
            g,
            h,
            slug,
            graph::decision(answer, rationale, model::rejections(rejected)),
            keep_subtree,
        ),
    ensures
        h[slug].status == Status::Answered,
        h[slug].rev == g[slug].rev + 1,
        h[slug].answer is Some,
        h[slug].answer->0.text == answer,
        h[slug].answer->0.rationale == rationale,
        h[slug].answer->0.rejected.len() == rejected.len(),
        forall|i: int|
            #![trigger rejected[i]]
            0 <= i < rejected.len() ==> h[slug].answer->0.rejected[i].option == rejected[i].option@
                && h[slug].answer->0.rejected[i].why_not == rejected[i].why_not@,
        h[slug].answer->0.cauterised_by == None::<Text>,
        g[slug].answer is Some ==> h[slug].prior == g[slug].answer,
        g[slug].answer is None ==> h[slug].prior == g[slug].prior,
        h[slug].id == g[slug].id,
        h[slug].slug == g[slug].slug,
        h[slug].question == g[slug].question,
        h[slug].parent == g[slug].parent,
        h[slug].seq == g[slug].seq,
        h[slug].blocked_by == g[slug].blocked_by,
        h[slug].created_at == g[slug].created_at,
        h[slug].updated_at.nanosecond == 0,
        model::FIRST_SECOND <= h[slug].updated_at.second <= model::LAST_SECOND,
        h.dom() == g.dom(),
        forall|x: Text|
            #![trigger h[x]]
            g.dom().contains(x) && x != slug ==> if (g[slug].status == Status::Answered || g[slug].prior is Some) && !keep_subtree && g[x].status == Status::Answered
                && walk::stands_on(g, true, x, slug) {
                &&& h[x].status == Status::Open
                &&& h[x].answer is None
                &&& h[x].prior == (if g[x].answer is Some {
                    g[x].answer
                } else {
                    g[x].prior
                })
                &&& h[x].id == g[x].id
                &&& h[x].slug == g[x].slug
                &&& h[x].question == g[x].question
                &&& h[x].parent == g[x].parent
                &&& h[x].seq == g[x].seq
                &&& h[x].blocked_by == g[x].blocked_by
                &&& h[x].rev == g[x].rev
                &&& h[x].created_at == g[x].created_at
            } else {
                h[x] == g[x]
            },
{
    answering_writes_the_answer(
        g[slug],
        graph::decision(answer, rationale, model::rejections(rejected)),
        h[slug],
    );
    let mid = g.insert(slug, h[slug]);
    assert(mid.dom() =~= g.dom());
    assert forall|x: Text| #![trigger h[x]] g.dom().contains(x) && x != slug implies mid[x] == g[x]
        && mid.dom().contains(x) by {
    }
}

/// After a head was cauterised its answer says so, with the reason that was given,
/// and names the head that killed it. It rejects nothing. What stood on a former
/// answer is reopened as by any revision.
pub proof fn cauterising_names_the_killer(
    g: Graph,
    h: Graph,
    slug: Text,
    by: Text,
    why: Option<Text>,
)
    requires
        g.dom().contains(slug),
        g[slug].rev < u32::MAX,
        graph::answers(g, h, slug, graph::killed(by, why), false),
    ensures
        h[slug].status == Status::Answered,
        h[slug].rev == g[slug].rev + 1,
        h[slug].answer is Some,
        h[slug].answer->0.text == "cauterised"@,
        h[slug].answer->0.rationale == why,
        h[slug].answer->0.rejected.len() == 0,
        h[slug].answer->0.cauterised_by == Some(by),
        g[slug].answer is Some ==> h[slug].prior == g[slug].answer,
        g[slug].answer is None ==> h[slug].prior == g[slug].prior,
        h[slug].id == g[slug].id,
        h[slug].slug == g[slug].slug,
        h[slug].question == g[slug].question,
        h[slug].parent == g[slug].parent,
        h[slug].seq == g[slug].seq,
        h[slug].blocked_by == g[slug].blocked_by,
        h[slug].created_at == g[slug].created_at,
        h[slug].updated_at.nanosecond == 0,
        model::FIRST_SECOND <= h[slug].updated_at.second <= model::LAST_SECOND,
        h.dom() == g.dom(),
        forall|x: Text|
            #![trigger h[x]]
            g.dom().contains(x) && x != slug ==> if (g[slug].status == Status::Answered || g[slug].prior is Some) && g[x].status == Status::Answered
                && walk::stands_on(g, true, x, slug) {
                &&& h[x].status == Status::Open
                &&& h[x].answer is None
                &&& h[x].prior == (if g[x].answer is Some {
                    g[x].answer
                } else {
                    g[x].prior
                })
                &&& h[x].id == g[x].id
                &&& h[x].slug == g[x].slug
                &&& h[x].question == g[x].question
                &&& h[x].parent == g[x].parent
                &&& h[x].seq == g[x].seq
                &&& h[x].blocked_by == g[x].blocked_by
                &&& h[x].rev == g[x].rev
                &&& h[x].created_at == g[x].created_at
            } else {
                h[x] == g[x]
            },
{
    answering_writes_the_answer(g[slug], graph::killed(by, why), h[slug]);
    let mid = g.insert(slug, h[slug]);
    assert(mid.dom() =~= g.dom());
    assert forall|x: Text| #![trigger h[x]] g.dom().contains(x) && x != slug implies mid[x] == g[x]
        && mid.dom().contains(x) by {
    }
}

/// After a head was reopened it is open, without an answer and with the one it had as
/// its prior. Every answered head that stands on it is reopened too, and no other is
/// touched.
pub proof fn reopening_takes_back_what_stood_on_it(g: Graph, h: Graph, slug: Text)
    requires
        g.dom().contains(slug),
        g[slug].reopened().now_is(h[slug]),
        cascade::reopens(g.insert(slug, h[slug]), h, cascade::stale(g, slug)),
    ensures
        h[slug].status == Status::Open,
        h[slug].answer is None,
        g[slug].answer is Some ==> h[slug].prior == g[slug].answer,
        g[slug].answer is None ==> h[slug].prior == g[slug].prior,
        h[slug].id == g[slug].id,
        h[slug].slug == g[slug].slug,
        h[slug].question == g[slug].question,
        h[slug].parent == g[slug].parent,
        h[slug].seq == g[slug].seq,
        h[slug].blocked_by == g[slug].blocked_by,
        h[slug].rev == g[slug].rev,
        h[slug].created_at == g[slug].created_at,
        h[slug].updated_at.nanosecond == 0,
        model::FIRST_SECOND <= h[slug].updated_at.second <= model::LAST_SECOND,
        h.dom() == g.dom(),
        forall|x: Text|
            #![trigger h[x]]
            g.dom().contains(x) && x != slug ==> if true && g[x].status == Status::Answered
                && walk::stands_on(g, true, x, slug) {
                &&& h[x].status == Status::Open
                &&& h[x].answer is None
                &&& h[x].prior == (if g[x].answer is Some {
                    g[x].answer
                } else {
                    g[x].prior
                })
                &&& h[x].id == g[x].id
                &&& h[x].slug == g[x].slug
                &&& h[x].question == g[x].question
                &&& h[x].parent == g[x].parent
                &&& h[x].seq == g[x].seq
                &&& h[x].blocked_by == g[x].blocked_by
                &&& h[x].rev == g[x].rev
                &&& h[x].created_at == g[x].created_at
            } else {
                h[x] == g[x]
            },
{
    reopening_withdraws_the_answer(g[slug], h[slug]);
    let mid = g.insert(slug, h[slug]);
    assert(mid.dom() =~= g.dom());
    assert forall|x: Text| #![trigger h[x]] g.dom().contains(x) && x != slug implies mid[x] == g[x]
        && mid.dom().contains(x) by {
    }
}

// ---------------------------------------------------------------------------
// Edits
// ---------------------------------------------------------------------------

/// After a rewording the head has the new question and is otherwise as it was. No
/// other head is touched.
pub proof fn rewording_leaves_the_answer(g: Graph, h: Graph, slug: Text, question: Text)
    requires
        g.dom().contains(slug),
        graph::rewrites(g, h, slug, g[slug].reworded(question)),
    ensures
        h[slug].question == question,
        h[slug].id == g[slug].id,
        h[slug].slug == g[slug].slug,
        h[slug].parent == g[slug].parent,
        h[slug].seq == g[slug].seq,
        h[slug].blocked_by == g[slug].blocked_by,
        h[slug].status == g[slug].status,
        h[slug].rev == g[slug].rev,
        h[slug].created_at == g[slug].created_at,
        h[slug].answer == g[slug].answer,
        h[slug].prior == g[slug].prior,
        h.dom() == g.dom(),
        forall|x: Text| #![trigger h[x]] g.dom().contains(x) && x != slug ==> h[x] == g[x],
{
    rewording_changes_the_question(g[slug], question, h[slug]);
    assert(h.dom() =~= g.dom());
}

/// After a move the head is under the new parent, numbered behind every head that
/// was there and no further than needed, and is otherwise as it was: what was
/// answered stays answered. A head that was there already is not touched, and no
/// other head is either. So the same heads are open as before.
pub proof fn moving_leaves_the_answer(g: Graph, h: Graph, slug: Text, parent: Option<Text>)
    requires
        g.dom().contains(slug),
        g.dom().finite(),
        graph::seats_left(g, parent),
        graph::reseats(g, h, slug, parent),
    ensures
        h[slug].parent == parent,
        g[slug].parent == parent ==> h == g,
        g[slug].parent != parent ==> {
            &&& forall|x: Text|
                #![trigger g[x]]
                g.dom().contains(x) && g[x].parent == parent ==> g[x].seq < h[slug].seq
            &&& h[slug].seq == 1 || exists|x: Text|
                #![trigger g[x]]
                g.dom().contains(x) && g[x].parent == parent && g[x].seq + 1 == h[slug].seq
            &&& (forall|x: Text| #![trigger g[x]] g.dom().contains(x) ==> g[x].parent != parent)
                ==> h[slug].seq == 1
        },
        h[slug].id == g[slug].id,
        h[slug].slug == g[slug].slug,
        h[slug].question == g[slug].question,
        h[slug].blocked_by == g[slug].blocked_by,
        h[slug].status == g[slug].status,
        h[slug].rev == g[slug].rev,
        h[slug].created_at == g[slug].created_at,
        h[slug].answer == g[slug].answer,
        h[slug].prior == g[slug].prior,
        h.dom() == g.dom(),
        forall|x: Text| #![trigger h[x]] g.dom().contains(x) && x != slug ==> h[x] == g[x],
        forall|x: Text|
            #![trigger h[x]]
            g.dom().contains(x) ==> h[x].status == g[x].status,
{
    if g[slug].parent != parent {
        graph::next_seq_exists(g, parent);
        let n = graph::next_seq(g, parent);
        lemma_seat(g, parent, n);
        moving_changes_the_seat(g[slug], parent, n as u32, h[slug]);
        assert(h.dom() =~= g.dom());
    }
}

/// What the number behind all others under a parent is.
proof fn lemma_seat(g: Graph, parent: Option<Text>, n: int)
    requires
        graph::seats_left(g, parent),
        graph::is_next_seq(g, parent, n),
    ensures
        1 <= n <= u32::MAX,
        forall|x: Text|
            #![trigger g[x]]
            g.dom().contains(x) && g[x].parent == parent ==> g[x].seq < n,
        n == 1 || exists|x: Text|
            #![trigger g[x]]
            g.dom().contains(x) && g[x].parent == parent && g[x].seq + 1 == n,
        (forall|x: Text| #![trigger g[x]] g.dom().contains(x) ==> g[x].parent != parent) ==> n == 1,
{
    assert forall|x: Text|
        #![trigger g[x]]
        g.dom().contains(x) && g[x].parent == parent implies g[x].seq < n by {
        assert(graph::child_of(g, parent, x));
    }
    if exists|slug: Text| graph::child_of(g, parent, slug) {
        let top = choose|slug: Text| #[trigger]
            graph::child_of(g, parent, slug) && g[slug].seq == n - 1;
        assert(g.dom().contains(top) && g[top].parent == parent && g[top].seq + 1 == n);
    }
}

/// After a link the head has the blockers that it had and the new one, each once and
/// sorted, and is otherwise as it was. Where the edge was there already nothing is
/// touched, and no other head ever is.
pub proof fn linking_adds_one_blocker(g: Graph, h: Graph, slug: Text, blocked_by: Text)
    requires
        g.dom().contains(slug),
        graph::links(g, h, slug, blocked_by),
    ensures
        g[slug].blocked_by.contains(blocked_by) ==> h == g,
        forall|x: Text| #[trigger]
            h[slug].blocked_by.contains(x) <==> g[slug].blocked_by.contains(x) || x == blocked_by,
        !g[slug].blocked_by.contains(blocked_by) ==> forall|i: int, j: int|
            0 <= i < j < h[slug].blocked_by.len() ==> text::before(
                #[trigger] h[slug].blocked_by[i],
                #[trigger] h[slug].blocked_by[j],
            ),
        h[slug].id == g[slug].id,
        h[slug].slug == g[slug].slug,
        h[slug].question == g[slug].question,
        h[slug].parent == g[slug].parent,
        h[slug].seq == g[slug].seq,
        h[slug].status == g[slug].status,
        h[slug].rev == g[slug].rev,
        h[slug].created_at == g[slug].created_at,
        h[slug].answer == g[slug].answer,
        h[slug].prior == g[slug].prior,
        h.dom() == g.dom(),
        forall|x: Text| #![trigger h[x]] g.dom().contains(x) && x != slug ==> h[x] == g[x],
{
    let before = g[slug].blocked_by;
    if !before.contains(blocked_by) {
        vstd::seq_lib::seq_to_set_is_finite(before);
        gating_changes_the_blockers(g[slug], before.to_set().insert(blocked_by), h[slug]);
        assert(h.dom() =~= g.dom());
    }
}

/// After an unlink the head has the blockers that it had but for that one, each once
/// and sorted, and is otherwise as it was. Where the edge was not there nothing is
/// touched, and no other head ever is.
pub proof fn unlinking_removes_one_blocker(g: Graph, h: Graph, slug: Text, blocked_by: Text)
    requires
        g.dom().contains(slug),
        graph::unlinks(g, h, slug, blocked_by),
    ensures
        !g[slug].blocked_by.contains(blocked_by) ==> h == g,
        forall|x: Text| #[trigger]
            h[slug].blocked_by.contains(x) <==> g[slug].blocked_by.contains(x) && x != blocked_by,
        g[slug].blocked_by.contains(blocked_by) ==> forall|i: int, j: int|
            0 <= i < j < h[slug].blocked_by.len() ==> text::before(
                #[trigger] h[slug].blocked_by[i],
                #[trigger] h[slug].blocked_by[j],
            ),
        h[slug].id == g[slug].id,
        h[slug].slug == g[slug].slug,
        h[slug].question == g[slug].question,
        h[slug].parent == g[slug].parent,
        h[slug].seq == g[slug].seq,
        h[slug].status == g[slug].status,
        h[slug].rev == g[slug].rev,
        h[slug].created_at == g[slug].created_at,
        h[slug].answer == g[slug].answer,
        h[slug].prior == g[slug].prior,
        h.dom() == g.dom(),
        forall|x: Text| #![trigger h[x]] g.dom().contains(x) && x != slug ==> h[x] == g[x],
{
    let before = g[slug].blocked_by;
    if before.contains(blocked_by) {
        vstd::seq_lib::seq_to_set_is_finite(before);
        gating_changes_the_blockers(g[slug], before.to_set().remove(blocked_by), h[slug]);
        assert(h.dom() =~= g.dom());
    }
}

// ---------------------------------------------------------------------------
// New heads
// ---------------------------------------------------------------------------

/// A new head is open and has what it was asked to have: the question and the parent
/// as given, and the blockers that were given, each once and sorted. It has no answer
/// and never had one, and it is numbered behind every head under its parent and no
/// further than needed.
pub proof fn sprouting_makes_an_open_head(
    g: Graph,
    args: SproutView,
    slug: Text,
    id: ulid::Ulid,
    at: Timestamp,
)
    requires
        g.dom().finite(),
        graph::seats_left(g, args.parent),
    ensures
        ({
            let head = graph::sprouted(g, args, slug, id, at);
            &&& head.id == id
            &&& head.slug == slug
            &&& head.question == args.question
            &&& head.parent == args.parent
            &&& head.status == Status::Open
            &&& head.rev == 0
            &&& head.created_at == at
            &&& head.updated_at == at
            &&& head.answer is None
            &&& head.prior is None
            &&& forall|x: Text| #[trigger]
                head.blocked_by.contains(x) <==> args.blocked_by.contains(x)
            &&& forall|i: int, j: int|
                0 <= i < j < head.blocked_by.len() ==> text::before(
                    #[trigger] head.blocked_by[i],
                    #[trigger] head.blocked_by[j],
                )
            &&& forall|x: Text|
                #![trigger g[x]]
                g.dom().contains(x) && g[x].parent == args.parent ==> g[x].seq < head.seq
            &&& head.seq == 1 || exists|x: Text|
                #![trigger g[x]]
                g.dom().contains(x) && g[x].parent == args.parent && g[x].seq + 1 == head.seq
            &&& (forall|x: Text| #![trigger g[x]] g.dom().contains(x) ==> g[x].parent != args.parent)
                ==> head.seq == 1
        }),
{
    let head = graph::sprouted(g, args, slug, id, at);
    let edges = args.blocked_by.to_set();
    vstd::seq_lib::seq_to_set_is_finite(args.blocked_by);
    order::by_text_is_strict();
    order::arrangement_exists(edges, order::by_text());
    assert forall|x: Text| #[trigger] head.blocked_by.contains(x) <==> args.blocked_by.contains(
        x,
    ) by {
        assert(edges.contains(x) <==> args.blocked_by.contains(x));
    }
    assert forall|i: int, j: int| 0 <= i < j < head.blocked_by.len() implies text::before(
        #[trigger] head.blocked_by[i],
        #[trigger] head.blocked_by[j],
    ) by {
        assert(order::by_text()(head.blocked_by[i], head.blocked_by[j]));
    }
    graph::next_seq_exists(g, args.parent);
    lemma_seat(g, args.parent, graph::next_seq(g, args.parent));
}

/// A head is filed under the slug that was given for it, as it is. Where none was
/// given it is filed under what is left of its question as a slug or, where that is
/// taken, under the same with the lowest number from 2 on that makes it free.
pub proof fn new_head_gets_the_slug_it_should(g: Graph, args: SproutView)
    ensures
        graph::sprout_outcome(g, args) matches Ok(slug) ==> {
            &&& args.slug matches Some(given) ==> slug == given
            &&& args.slug is None ==> {
                let base = slugs::slug_of(args.question);
                ||| slug == base && !g.dom().contains(base)
                ||| g.dom().contains(base) && exists|n: nat|
                    #![trigger text::decimal(n)]
                    {
                        &&& 2 <= n
                        &&& slug == base + seq!['-'] + text::decimal(n)
                        &&& !g.dom().contains(slug)
                        &&& forall|m: nat|
                            2 <= m < n ==> g.dom().contains(
                                base + seq!['-'] + #[trigger] text::decimal(m),
                            )
                    }
            }
        },
{
    let base = slugs::slug_of(args.question);
    if graph::sprout_outcome(g, args) is Ok && args.slug is None && g.dom().contains(base) {
        let n = lemma_lowest_free(g, base, 2);
        assert(base.push('-') + text::decimal(n) =~= base + seq!['-'] + text::decimal(n));
        assert forall|m: nat| 2 <= m < n implies g.dom().contains(
            base + seq!['-'] + #[trigger] text::decimal(m),
        ) by {
            assert(g.dom().contains(graph::suffixed(base, m)));
            assert(base.push('-') + text::decimal(m) =~= base + seq!['-'] + text::decimal(m));
        }
    }
}

proof fn lemma_lowest_free(g: Graph, base: Text, from: nat) -> (n: nat)
    requires
        graph::first_free(g, base, from) is Some,
    ensures
        from <= n,
        graph::first_free(g, base, from) == Some(graph::suffixed(base, n)),
        !g.dom().contains(graph::suffixed(base, n)),
        forall|m: nat| from <= m < n ==> g.dom().contains(#[trigger] graph::suffixed(base, m)),
    decreases u32::MAX + 1 - from,
{
    if g.dom().contains(graph::suffixed(base, from)) {
        lemma_lowest_free(g, base, from + 1)
    } else {
        from
    }
}

// ---------------------------------------------------------------------------
// Commands
// ---------------------------------------------------------------------------

/// A cut on the command line stores what the command line gave.
pub proof fn cut_command_stores_what_was_given(
    g: Graph,
    h: Graph,
    slug: String,
    answer: String,
    rationale: Option<String>,
    reject: Vec<Rejected>,
    keep_subtree: bool,
    force: bool,
)
    requires
        g.dom().contains(slug@),
        g[slug@].rev < u32::MAX,
        cli::edits(g, h, Edit::Cut { slug, answer, rationale, reject, keep_subtree, force }),
    ensures
        h[slug@].status == Status::Answered,
        h[slug@].rev == g[slug@].rev + 1,
        h[slug@].answer is Some,
        h[slug@].answer->0.text == answer@,
        h[slug@].answer->0.rationale == text::optional(rationale),
        h[slug@].answer->0.rejected.len() == reject@.len(),
        forall|i: int|
            #![trigger reject@[i]]
            0 <= i < reject@.len() ==> h[slug@].answer->0.rejected[i].option == reject@[i].option@
                && h[slug@].answer->0.rejected[i].why_not == reject@[i].why_not@,
        h[slug@].answer->0.cauterised_by == None::<Text>,
        g[slug@].answer is Some ==> h[slug@].prior == g[slug@].answer,
        g[slug@].answer is None ==> h[slug@].prior == g[slug@].prior,
        h[slug@].id == g[slug@].id,
        h[slug@].slug == g[slug@].slug,
        h[slug@].question == g[slug@].question,
        h[slug@].parent == g[slug@].parent,
        h[slug@].seq == g[slug@].seq,
        h[slug@].blocked_by == g[slug@].blocked_by,
        h[slug@].created_at == g[slug@].created_at,
        h[slug@].updated_at.nanosecond == 0,
        model::FIRST_SECOND <= h[slug@].updated_at.second <= model::LAST_SECOND,
        h.dom() == g.dom(),
        forall|x: Text|
            #![trigger h[x]]
            g.dom().contains(x) && x != slug@ ==> if (g[slug@].status == Status::Answered || g[slug@].prior is Some) && !keep_subtree && g[x].status == Status::Answered
                && walk::stands_on(g, true, x, slug@) {
                &&& h[x].status == Status::Open
                &&& h[x].answer is None
                &&& h[x].prior == (if g[x].answer is Some {
                    g[x].answer
                } else {
                    g[x].prior
                })
                &&& h[x].id == g[x].id
                &&& h[x].slug == g[x].slug
                &&& h[x].question == g[x].question
                &&& h[x].parent == g[x].parent
                &&& h[x].seq == g[x].seq
                &&& h[x].blocked_by == g[x].blocked_by
                &&& h[x].rev == g[x].rev
                &&& h[x].created_at == g[x].created_at
            } else {
                h[x] == g[x]
            },
{
    cut_stores_what_was_given(
        g,
        h,
        slug@,
        answer@,
        text::optional(rationale),
        reject@,
        keep_subtree,
    );
}

/// A cauterising on the command line names the killer and the reason that the command
/// line gave.
pub proof fn cauterise_command_names_the_killer(
    g: Graph,
    h: Graph,
    slug: String,
    by: String,
    why: Option<String>,
    force: bool,
)
    requires
        g.dom().contains(slug@),
        g[slug@].rev < u32::MAX,
        cli::edits(g, h, Edit::Cauterise { slug, by, why, force }),
    ensures
        h[slug@].status == Status::Answered,
        h[slug@].rev == g[slug@].rev + 1,
        h[slug@].answer is Some,
        h[slug@].answer->0.text == "cauterised"@,
        h[slug@].answer->0.rationale == text::optional(why),
        h[slug@].answer->0.rejected.len() == 0,
        h[slug@].answer->0.cauterised_by == Some(by@),
        g[slug@].answer is Some ==> h[slug@].prior == g[slug@].answer,
        g[slug@].answer is None ==> h[slug@].prior == g[slug@].prior,
        h[slug@].id == g[slug@].id,
        h[slug@].slug == g[slug@].slug,
        h[slug@].question == g[slug@].question,
        h[slug@].parent == g[slug@].parent,
        h[slug@].seq == g[slug@].seq,
        h[slug@].blocked_by == g[slug@].blocked_by,
        h[slug@].created_at == g[slug@].created_at,
        h[slug@].updated_at.nanosecond == 0,
        model::FIRST_SECOND <= h[slug@].updated_at.second <= model::LAST_SECOND,
        h.dom() == g.dom(),
        forall|x: Text|
            #![trigger h[x]]
            g.dom().contains(x) && x != slug@ ==> if (g[slug@].status == Status::Answered || g[slug@].prior is Some) && g[x].status == Status::Answered
                && walk::stands_on(g, true, x, slug@) {
                &&& h[x].status == Status::Open
                &&& h[x].answer is None
                &&& h[x].prior == (if g[x].answer is Some {
                    g[x].answer
                } else {
                    g[x].prior
                })
                &&& h[x].id == g[x].id
                &&& h[x].slug == g[x].slug
                &&& h[x].question == g[x].question
                &&& h[x].parent == g[x].parent
                &&& h[x].seq == g[x].seq
                &&& h[x].blocked_by == g[x].blocked_by
                &&& h[x].rev == g[x].rev
                &&& h[x].created_at == g[x].created_at
            } else {
                h[x] == g[x]
            },
{
    cauterising_names_the_killer(g, h, slug@, by@, text::optional(why));
}

/// A reopening on the command line takes back the answer of the head that it names
/// and of what stood on it.
pub proof fn reopen_command_takes_back_what_stood_on_it(g: Graph, h: Graph, slug: String)
    requires
        g.dom().contains(slug@),
        cli::edits(g, h, Edit::Reopen { slug }),
    ensures
        h[slug@].status == Status::Open,
        h[slug@].answer is None,
        g[slug@].answer is Some ==> h[slug@].prior == g[slug@].answer,
        g[slug@].answer is None ==> h[slug@].prior == g[slug@].prior,
        h[slug@].id == g[slug@].id,
        h[slug@].slug == g[slug@].slug,
        h[slug@].question == g[slug@].question,
        h[slug@].parent == g[slug@].parent,
        h[slug@].seq == g[slug@].seq,
        h[slug@].blocked_by == g[slug@].blocked_by,
        h[slug@].rev == g[slug@].rev,
        h[slug@].created_at == g[slug@].created_at,
        h.dom() == g.dom(),
        forall|x: Text|
            #![trigger h[x]]
            g.dom().contains(x) && x != slug@ ==> if true && g[x].status == Status::Answered
                && walk::stands_on(g, true, x, slug@) {
                &&& h[x].status == Status::Open
                &&& h[x].answer is None
                &&& h[x].prior == (if g[x].answer is Some {
                    g[x].answer
                } else {
                    g[x].prior
                })
                &&& h[x].id == g[x].id
                &&& h[x].slug == g[x].slug
                &&& h[x].question == g[x].question
                &&& h[x].parent == g[x].parent
                &&& h[x].seq == g[x].seq
                &&& h[x].blocked_by == g[x].blocked_by
                &&& h[x].rev == g[x].rev
                &&& h[x].created_at == g[x].created_at
            } else {
                h[x] == g[x]
            },
{
    reopening_takes_back_what_stood_on_it(g, h, slug@);
}

/// A rewording on the command line changes the question of the head that it names.
pub proof fn reword_command_leaves_the_answer(g: Graph, h: Graph, slug: String, question: String)
    requires
        g.dom().contains(slug@),
        cli::edits(g, h, Edit::Reword { slug, question }),
    ensures
        h[slug@].question == question@,
        h[slug@].id == g[slug@].id,
        h[slug@].slug == g[slug@].slug,
        h[slug@].parent == g[slug@].parent,
        h[slug@].seq == g[slug@].seq,
        h[slug@].blocked_by == g[slug@].blocked_by,
        h[slug@].status == g[slug@].status,
        h[slug@].rev == g[slug@].rev,
        h[slug@].created_at == g[slug@].created_at,
        h[slug@].answer == g[slug@].answer,
        h[slug@].prior == g[slug@].prior,
        h.dom() == g.dom(),
        forall|x: Text| #![trigger h[x]] g.dom().contains(x) && x != slug@ ==> h[x] == g[x],
{
    rewording_leaves_the_answer(g, h, slug@, question@);
}

/// A move on the command line changes the seat of the head that it names; an empty
/// parent makes it a root.
pub proof fn reparent_command_leaves_the_answer(g: Graph, h: Graph, slug: String, parent: String)
    requires
        g.dom().contains(slug@),
        g.dom().finite(),
        parent@.len() == 0 ==> graph::seats_left(g, None),
        parent@.len() > 0 ==> graph::seats_left(g, Some(parent@)),
        cli::edits(g, h, Edit::Reparent { slug, parent }),
    ensures
        parent@.len() == 0 ==> h[slug@].parent is None,
        parent@.len() > 0 ==> h[slug@].parent == Some(parent@),
        g[slug@].parent == h[slug@].parent ==> h == g,
        g[slug@].parent != h[slug@].parent ==> {
            &&& forall|x: Text|
                #![trigger g[x]]
                g.dom().contains(x) && g[x].parent == h[slug@].parent ==> g[x].seq < h[slug@].seq
            &&& h[slug@].seq == 1 || exists|x: Text|
                #![trigger g[x]]
                g.dom().contains(x) && g[x].parent == h[slug@].parent && g[x].seq + 1
                    == h[slug@].seq
        },
        h[slug@].id == g[slug@].id,
        h[slug@].slug == g[slug@].slug,
        h[slug@].question == g[slug@].question,
        h[slug@].blocked_by == g[slug@].blocked_by,
        h[slug@].status == g[slug@].status,
        h[slug@].rev == g[slug@].rev,
        h[slug@].created_at == g[slug@].created_at,
        h[slug@].answer == g[slug@].answer,
        h[slug@].prior == g[slug@].prior,
        h.dom() == g.dom(),
        forall|x: Text| #![trigger h[x]] g.dom().contains(x) && x != slug@ ==> h[x] == g[x],
{
    let under = if parent@.len() == 0 {
        None
    } else {
        Some(parent@)
    };
    moving_leaves_the_answer(g, h, slug@, under);
}

/// A link on the command line adds the blocker that it names to the head that it
/// names.
pub proof fn link_command_adds_one_blocker(
    g: Graph,
    h: Graph,
    slug: String,
    blocked_by: String,
    force: bool,
)
    requires
        g.dom().contains(slug@),
        cli::edits(g, h, Edit::Link { slug, blocked_by, force }),
    ensures
        forall|x: Text| #[trigger]
            h[slug@].blocked_by.contains(x) <==> g[slug@].blocked_by.contains(x) || x
                == blocked_by@,
        h[slug@].id == g[slug@].id,
        h[slug@].slug == g[slug@].slug,
        h[slug@].question == g[slug@].question,
        h[slug@].parent == g[slug@].parent,
        h[slug@].seq == g[slug@].seq,
        h[slug@].status == g[slug@].status,
        h[slug@].rev == g[slug@].rev,
        h[slug@].created_at == g[slug@].created_at,
        h[slug@].answer == g[slug@].answer,
        h[slug@].prior == g[slug@].prior,
        h.dom() == g.dom(),
        forall|x: Text| #![trigger h[x]] g.dom().contains(x) && x != slug@ ==> h[x] == g[x],
{
    linking_adds_one_blocker(g, h, slug@, blocked_by@);
}

/// An unlink on the command line takes the blocker that it names off the head that it
/// names.
pub proof fn unlink_command_removes_one_blocker(
    g: Graph,
    h: Graph,
    slug: String,
    blocked_by: String,
)
    requires
        g.dom().contains(slug@),
        cli::edits(g, h, Edit::Unlink { slug, blocked_by }),
    ensures
        forall|x: Text| #[trigger]
            h[slug@].blocked_by.contains(x) <==> g[slug@].blocked_by.contains(x) && x
                != blocked_by@,
        h[slug@].id == g[slug@].id,
        h[slug@].slug == g[slug@].slug,
        h[slug@].question == g[slug@].question,
        h[slug@].parent == g[slug@].parent,
        h[slug@].seq == g[slug@].seq,
        h[slug@].status == g[slug@].status,
        h[slug@].rev == g[slug@].rev,
        h[slug@].created_at == g[slug@].created_at,
        h[slug@].answer == g[slug@].answer,
        h[slug@].prior == g[slug@].prior,
        h.dom() == g.dom(),
        forall|x: Text| #![trigger h[x]] g.dom().contains(x) && x != slug@ ==> h[x] == g[x],
{
    unlinking_removes_one_blocker(g, h, slug@, blocked_by@);
}

/// A sprout on the command line makes one open head with the question, the parent and
/// the blockers that the command line gave, and touches no other. It is filed under
/// the slug that was given; where none was, and the question has several lines, under
/// what is left of its first line as a slug.
pub proof fn sprout_command_makes_an_open_head(
    g: Graph,
    h: Graph,
    question: String,
    parent: Option<String>,
    blocked_by: Vec<String>,
    slug: Option<String>,
)
    requires
        g.dom().finite(),
        graph::seats_left(g, text::optional(parent)),
        cli::edit_refusal(g, Edit::Sprout { question, parent, blocked_by, slug }) is None,
        cli::edits(g, h, Edit::Sprout { question, parent, blocked_by, slug }),
    ensures
        ({
            let new = cli::edited(g, Edit::Sprout { question, parent, blocked_by, slug });
            let head = h[new];
            &&& !g.dom().contains(new)
            &&& h.dom() == g.dom().insert(new)
            &&& forall|x: Text| #![trigger h[x]] g.dom().contains(x) ==> h[x] == g[x]
            &&& slug matches Some(given) ==> new == given@
            &&& slug is None && query::first_line_of(question@) != question@ ==> new
                == slugs::slug_of(query::first_line_of(question@))
            &&& head.slug == new
            &&& head.question == question@
            &&& head.parent == text::optional(parent)
            &&& head.status == Status::Open
            &&& head.rev == 0
            &&& head.created_at == head.updated_at
            &&& head.answer is None
            &&& head.prior is None
            &&& forall|x: Text| #[trigger]
                head.blocked_by.contains(x) <==> exists|i: int|
                    0 <= i < blocked_by@.len() && (#[trigger] blocked_by@[i])@ == x
            &&& forall|x: Text|
                #![trigger g[x]]
                g.dom().contains(x) && g[x].parent == head.parent ==> g[x].seq < head.seq
            &&& head.seq == 1 || exists|x: Text|
                #![trigger g[x]]
                g.dom().contains(x) && g[x].parent == head.parent && g[x].seq + 1 == head.seq
        }),
{
    let edit = Edit::Sprout { question, parent, blocked_by, slug };
    let args = cli::sprout_of(edit);
    let new = cli::edited(g, edit);
    let head = h[new];
    graph::granted_slug(g, args);
    new_head_gets_the_slug_it_should(g, args);
    sprouting_makes_an_open_head(g, args, new, head.id, head.created_at);
    assert(h.dom() =~= g.dom().insert(new));
    let given = text::texts(blocked_by@);
    assert forall|x: Text| #[trigger] head.blocked_by.contains(x) <==> exists|i: int|
        0 <= i < blocked_by@.len() && (#[trigger] blocked_by@[i])@ == x by {
        if given.contains(x) {
            let i = choose|i: int| 0 <= i < given.len() && given[i] == x;
            assert(blocked_by@[i]@ == x);
        }
        if exists|i: int| 0 <= i < blocked_by@.len() && (#[trigger] blocked_by@[i])@ == x {
            let i = choose|i: int| 0 <= i < blocked_by@.len() && (#[trigger] blocked_by@[i])@ == x;
            assert(given[i] == x);
        }
    }
}

/// The heads that an edit says it reopened are those that were answered before it and
/// are open after it, but for the one that it names.
pub proof fn reopened_heads_are_those_that_lost_their_answer(
    g: Graph,
    h: Graph,
    edit: Edit,
    x: Text,
)
    requires
        g.dom().finite(),
        cli::edit_refusal(g, edit) is None,
        cli::has_room(g, edit),
        cli::edits(g, h, edit),
    ensures
        cli::reopened_by(g, edit).contains(x) <==> g.dom().contains(x) && x != cli::edited(g, edit)
            && g[x].status == Status::Answered && h[x].status == Status::Open,
{
    match edit {
        Edit::Sprout { question, parent, blocked_by, slug } => {
            graph::granted_slug(g, cli::sprout_of(edit));
        },
        Edit::Cut { slug, answer, rationale, reject, keep_subtree, .. } => {
            cut_stores_what_was_given(
                g,
                h,
                slug@,
                answer@,
                text::optional(rationale),
                reject@,
                keep_subtree,
            );
        },
        Edit::Cauterise { slug, by, why, .. } => {
            cauterising_names_the_killer(g, h, slug@, by@, text::optional(why));
        },
        Edit::Reopen { slug } => {
            reopening_takes_back_what_stood_on_it(g, h, slug@);
        },
        Edit::Reword { slug, question } => {
            rewording_leaves_the_answer(g, h, slug@, question@);
        },
        Edit::Reparent { slug, parent } => {
            let under = cli::parent_named(parent@);
            if g[slug@].parent != under {
                moving_leaves_the_answer(g, h, slug@, under);
            }
        },
        Edit::Link { slug, blocked_by, .. } => {
            linking_adds_one_blocker(g, h, slug@, blocked_by@);
        },
        Edit::Unlink { slug, blocked_by } => {
            unlinking_removes_one_blocker(g, h, slug@, blocked_by@);
        },
    }
}

/// The head that an edit says it wrote is the one that it names.
pub proof fn edits_name_the_head_they_write(g: Graph, edit: Edit)
    ensures
        match edit {
            Edit::Sprout { .. } => true,
            Edit::Cut { slug, .. } => cli::edited(g, edit) == slug@,
            Edit::Cauterise { slug, .. } => cli::edited(g, edit) == slug@,
            Edit::Reopen { slug } => cli::edited(g, edit) == slug@,
            Edit::Reword { slug, .. } => cli::edited(g, edit) == slug@,
            Edit::Reparent { slug, .. } => cli::edited(g, edit) == slug@,
            Edit::Link { slug, .. } => cli::edited(g, edit) == slug@,
            Edit::Unlink { slug, .. } => cli::edited(g, edit) == slug@,
        },
        cli::verb_of(edit) == (match edit {
            Edit::Sprout { .. } => "sprout"@,
            Edit::Cut { .. } => "cut"@,
            Edit::Cauterise { .. } => "cauterise"@,
            Edit::Reopen { .. } => "reopen"@,
            Edit::Reword { .. } => "reword"@,
            Edit::Reparent { .. } => "reparent"@,
            Edit::Link { .. } => "link"@,
            Edit::Unlink { .. } => "unlink"@,
        }),
{
}

/// A report names the tree and the verb, the head and the heads that were reopened,
/// and counts the tree as it is now.
pub proof fn reports_say_what_was_done(
    op: Text,
    tree: TreeView,
    slug: Option<Text>,
    reopened: Seq<Text>,
)
    ensures
        cli::report_of(op, tree, slug, reopened).tree == tree.slug,
        cli::report_of(op, tree, slug, reopened).op == op,
        cli::report_of(op, tree, slug, reopened).slug == slug,
        cli::report_of(op, tree, slug, reopened).reopened == reopened,
        cli::report_of(op, tree, slug, reopened).counts == query::counts_of(tree),
{
}

/// The members of a finite set in order are exactly its members, each once, every one
/// before the next.
pub proof fn in_order_lists_the_set(set: Set<Text>)
    requires
        set.finite(),
    ensures
        forall|x: Text| #[trigger] order::in_order(set).contains(x) <==> set.contains(x),
        forall|i: int, j: int|
            0 <= i < j < order::in_order(set).len() ==> text::before(
                #[trigger] order::in_order(set)[i],
                #[trigger] order::in_order(set)[j],
            ),
        order::in_order(set).no_duplicates(),
{
    order::by_text_is_strict();
    order::arrangement_exists(set, order::by_text());
    order::arranged_has_no_duplicates(order::in_order(set), order::by_text());
    assert forall|i: int, j: int| 0 <= i < j < order::in_order(set).len() implies text::before(
        #[trigger] order::in_order(set)[i],
        #[trigger] order::in_order(set)[j],
    ) by {
        assert(order::by_text()(order::in_order(set)[i], order::in_order(set)[j]));
    }
}

/// A tree with other heads is otherwise the same tree, and a new one has the slug and
/// the intent that it was given, and no heads.
pub proof fn trees_keep_their_names(tree: TreeView, heads: Graph, slug: Text, intent: Text, at: Timestamp)
    ensures
        tree.with_heads(heads).heads == heads,
        tree.with_heads(heads).slug == tree.slug,
        tree.with_heads(heads).intent == tree.intent,
        tree.with_heads(heads).version == tree.version,
        tree.with_heads(heads).created_at == tree.created_at,
        TreeView::empty(slug, intent, at).slug == slug,
        TreeView::empty(slug, intent, at).intent == intent,
        TreeView::empty(slug, intent, at).version == 1,
        TreeView::empty(slug, intent, at).created_at == at,
        TreeView::empty(slug, intent, at).heads.dom() == Set::<Text>::empty(),
{
}

// ---------------------------------------------------------------------------
// What refuses
// ---------------------------------------------------------------------------

/// A cut is refused for a head that does not exist and, unless it is forced, for one
/// with a blocker that does not exist or is open, and for no other reason. The refusal
/// names the head and those blockers, in the order in which they are stored.
pub proof fn cut_waits_for_its_blockers(g: Graph, slug: Text, force: bool)
    ensures
        graph::cut_refusal(g, slug, force) == (if !g.dom().contains(slug) {
            Some(ErrorView::UnknownHead { slug })
        } else if !force && exists|i: int|
            0 <= i < g[slug].blocked_by.len() && !(g.dom().contains(
                #[trigger] g[slug].blocked_by[i],
            ) && g[g[slug].blocked_by[i]].status == Status::Answered) {
            Some(
                ErrorView::BlockedCut {
                    slug,
                    blockers: g[slug].blocked_by.filter(
                        |b: Text| !(g.dom().contains(b) && g[b].status == Status::Answered),
                    ),
                },
            )
        } else {
            None
        }),
{
    assert((|b: Text| crate::state::unmet(g, b)) =~= (|b: Text|
        !(g.dom().contains(b) && g[b].status == Status::Answered)));
}

/// A cauterising is refused where either head does not exist, where they are the same
/// and, unless it is forced, where the killer is not answered, and for no other
/// reason.
pub proof fn only_an_answer_cauterises(g: Graph, slug: Text, by: Text, force: bool)
    ensures
        graph::cauterise_refusal(g, slug, by, force) == (if !g.dom().contains(slug) {
            Some(ErrorView::UnknownHead { slug })
        } else if !g.dom().contains(by) {
            Some(ErrorView::UnknownHead { slug: by })
        } else if slug == by {
            Some(ErrorView::SelfCauterise { slug })
        } else if !force && g[by].status == Status::Open {
            Some(ErrorView::CauteriseByUnanswered { slug, by })
        } else {
            None
        }),
{
}

/// Only an answered head can be reopened, and only one that exists reworded or
/// unlinked.
pub proof fn only_what_is_there_is_changed(g: Graph, slug: Text)
    ensures
        graph::reopen_refusal(g, slug) == (if !g.dom().contains(slug) {
            Some(ErrorView::UnknownHead { slug })
        } else if g[slug].status == Status::Answered {
            None
        } else {
            Some(ErrorView::IllegalTransition { slug, from: Status::Open, to: Status::Open })
        }),
        graph::reword_refusal(g, slug) == (if g.dom().contains(slug) {
            None
        } else {
            Some(ErrorView::UnknownHead { slug })
        }),
        graph::unlink_refusal(g, slug) == (if g.dom().contains(slug) {
            None
        } else {
            Some(ErrorView::UnknownHead { slug })
        }),
{
}

/// A move is refused where either head does not exist, where the new parent is below
/// the head by parents alone, and where it stands on the head by parents and blockers
/// together, and for no other reason. The refusal shows the loop: down from the head
/// to the new parent, or from the head round by the first route back to it.
pub proof fn moves_that_close_a_loop_are_refused(g: Graph, slug: Text, parent: Option<Text>)
    requires
        g.dom().finite(),
    ensures
        !g.dom().contains(slug) ==> graph::reparent_refusal(g, slug, parent) == Some(
            ErrorView::UnknownHead { slug },
        ),
        g.dom().contains(slug) && parent is None ==> graph::reparent_refusal(g, slug, parent)
            is None,
        g.dom().contains(slug) ==> (parent matches Some(up) ==> {
            let refusal = graph::reparent_refusal(g, slug, parent);
            let above = exists|line: Seq<Text>| walk::lineage(g, slug, up, line);
            &&& !g.dom().contains(up) ==> refusal == Some(
                ErrorView::UnknownParent { slug, parent: up },
            )
            &&& g.dom().contains(up) && above ==> {
                &&& refusal matches Some(ErrorView::ParentCycle { slug: s, parent: p, path })
                &&& s == slug && p == up && walk::lineage(g, slug, up, path)
            }
            &&& g.dom().contains(up) && !above && walk::stands_on(g, true, up, slug) ==> {
                &&& refusal matches Some(ErrorView::ReopenCycle { slug: s, edge, other, path })
                &&& s == slug && other == up && edge == Edge::Parent
                &&& path.len() > 0 && path[0] == slug
                &&& walk::first_route(g, true, up, slug, path.skip(1))
            }
            &&& g.dom().contains(up) && !above && !walk::stands_on(g, true, up, slug)
                ==> refusal is None
        }),
{
    if let Some(up) = parent {
        if walk::stands_on(g, true, up, slug) {
            walk::route_between_is_the_first(g, true, up, slug);
            let path = walk::route_between(g, true, up, slug)->0;
            assert((seq![slug] + path).skip(1) =~= path);
        }
    }
}

/// An edge is refused where either head does not exist and, unless it is forced or
/// there already, where the blocker stands on the head, by blockers alone or by
/// blockers and parents together, and for no other reason. The refusal shows the loop:
/// from the head round by the first route back to it.
pub proof fn edges_that_close_a_loop_are_refused(
    g: Graph,
    slug: Text,
    blocked_by: Text,
    force: bool,
)
    requires
        g.dom().finite(),
    ensures
        ({
            let refusal = graph::link_refusal(g, slug, blocked_by, force);
            let known = g.dom().contains(slug) && g.dom().contains(blocked_by);
            let lax = force || g[slug].blocked_by.contains(blocked_by);
            &&& !g.dom().contains(slug) ==> refusal == Some(ErrorView::UnknownHead { slug })
            &&& g.dom().contains(slug) && !g.dom().contains(blocked_by) ==> refusal == Some(
                ErrorView::UnknownBlocker { slug, blocked_by },
            )
            &&& known && lax ==> refusal is None
            &&& known && !lax && walk::stands_on(g, false, blocked_by, slug) ==> {
                &&& refusal matches Some(ErrorView::BlockCycle { slug: s, blocked_by: b, path })
                &&& s == slug && b == blocked_by
                &&& path.len() > 0 && path[0] == slug
                &&& walk::first_route(g, false, blocked_by, slug, path.skip(1))
            }
            &&& known && !lax && !walk::stands_on(g, false, blocked_by, slug) && walk::stands_on(
                g,
                true,
                blocked_by,
                slug,
            ) ==> {
                &&& refusal matches Some(ErrorView::ReopenCycle { slug: s, edge, other, path })
                &&& s == slug && other == blocked_by && edge == Edge::BlockedBy
                &&& path.len() > 0 && path[0] == slug
                &&& walk::first_route(g, true, blocked_by, slug, path.skip(1))
            }
            &&& known && !walk::stands_on(g, false, blocked_by, slug) && !walk::stands_on(
                g,
                true,
                blocked_by,
                slug,
            ) ==> refusal is None
        }),
{
    if walk::stands_on(g, false, blocked_by, slug) {
        walk::route_between_is_the_first(g, false, blocked_by, slug);
        let path = walk::route_between(g, false, blocked_by, slug)->0;
        assert((seq![slug] + path).skip(1) =~= path);
    }
    if walk::stands_on(g, true, blocked_by, slug) {
        walk::route_between_is_the_first(g, true, blocked_by, slug);
        let path = walk::route_between(g, true, blocked_by, slug)->0;
        assert((seq![slug] + path).skip(1) =~= path);
    }
}

/// A new head is refused for a slug that is malformed or taken, for a parent that does
/// not exist and for the first blocker that does not, in this order, and where none of
/// these holds it is granted, unless every number is taken behind its slug.
pub proof fn new_heads_need_what_they_name(g: Graph, args: SproutView)
    ensures
        ({
            let outcome = graph::sprout_outcome(g, args);
            let ends = (args.parent matches Some(p) ==> g.dom().contains(p)) && forall|i: int|
                0 <= i < args.blocked_by.len() ==> g.dom().contains(#[trigger] args.blocked_by[i]);
            &&& args.slug matches Some(slug) ==> {
                &&& !slugs::well_formed(slug) ==> outcome == Err::<Text, ErrorView>(
                    ErrorView::MalformedSlug { slug },
                )
                &&& slugs::well_formed(slug) && g.dom().contains(slug) ==> outcome == Err::<
                    Text,
                    ErrorView,
                >(ErrorView::DuplicateSlug { slug })
                &&& slugs::well_formed(slug) && !g.dom().contains(slug) && ends ==> outcome == Ok::<
                    Text,
                    ErrorView,
                >(slug)
            }
            &&& args.slug is None ==> {
                let base = slugs::slug_of(args.question);
                &&& !slugs::well_formed(base) ==> outcome == Err::<Text, ErrorView>(
                    ErrorView::MalformedSlug { slug: base },
                )
                &&& slugs::well_formed(base) && !g.dom().contains(base) && ends ==> outcome == Ok::<
                    Text,
                    ErrorView,
                >(base)
                &&& outcome matches Err(ErrorView::DuplicateSlug { slug }) ==> slug == base
            }
            &&& !ends ==> outcome is Err
            &&& outcome matches Err(ErrorView::UnknownParent { slug, parent }) ==> args.parent
                == Some(parent) && !g.dom().contains(parent)
            &&& outcome matches Err(ErrorView::UnknownBlocker { slug, blocked_by }) ==> {
                &&& args.parent matches Some(p) ==> g.dom().contains(p)
                &&& exists|i: int|
                    {
                        &&& 0 <= i < args.blocked_by.len()
                        &&& #[trigger] args.blocked_by[i] == blocked_by
                        &&& !g.dom().contains(blocked_by)
                        &&& forall|j: int|
                            0 <= j < i ==> g.dom().contains(#[trigger] args.blocked_by[j])
                    }
            }
            &&& outcome matches Err(e) ==> e is MalformedSlug || e is DuplicateSlug
                || e is UnknownParent || e is UnknownBlocker
        }),
{
    lemma_first_unknown(g, args.blocked_by, 0);
    assert(args.blocked_by.skip(0) =~= args.blocked_by);
}

proof fn lemma_first_unknown(g: Graph, list: Seq<Text>, from: int)
    requires
        0 <= from <= list.len(),
        forall|j: int| 0 <= j < from ==> g.dom().contains(#[trigger] list[j]),
    ensures
        match graph::first_unknown(g, list.skip(from)) {
            None => forall|i: int| 0 <= i < list.len() ==> g.dom().contains(#[trigger] list[i]),
            Some(x) => exists|i: int|
                {
                    &&& 0 <= i < list.len()
                    &&& #[trigger] list[i] == x
                    &&& !g.dom().contains(x)
                    &&& forall|j: int| 0 <= j < i ==> g.dom().contains(#[trigger] list[j])
                },
        },
    decreases list.len() - from,
{
    if from < list.len() {
        let tail = list.skip(from);
        assert(tail[0] == list[from]);
        assert(tail.skip(1) =~= list.skip(from + 1));
        if g.dom().contains(list[from]) {
            lemma_first_unknown(g, list, from + 1);
        }
    }
}

/// What stands on what: every slug on itself, a head on whatever its parent and its
/// blockers stand on, and nothing on anything else.
pub proof fn standing_follows_parents_and_blockers(
    g: Graph,
    via_parent: bool,
    x: Text,
    y: Text,
    z: Text,
    among: Set<Text>,
)
    ensures
        walk::stands_on(g, via_parent, z, z),
        walk::stands_on(g, via_parent, y, z) && g.dom().contains(x) && (g[x].blocked_by.contains(y)
            || via_parent && g[x].parent == Some(y)) ==> walk::stands_on(g, via_parent, x, z),
        walk::stands_on(g, via_parent, x, z) && among.contains(z) && (forall|a: Text, b: Text|
            #![trigger g[a], among.contains(b)]
            g.dom().contains(a) && among.contains(b) && (g[a].blocked_by.contains(b) || via_parent
                && g[a].parent == Some(b)) ==> among.contains(a)) ==> among.contains(x),
{
    assert(walk::connects(g, via_parent, z, z, seq![z]));
    if walk::stands_on(g, via_parent, y, z) && g.dom().contains(x) && (g[x].blocked_by.contains(y)
        || via_parent && g[x].parent == Some(y)) {
        lemma_premise(g, via_parent, x, y);
        let path = choose|path: Seq<Text>| walk::connects(g, via_parent, y, z, path);
        let longer = seq![x] + path;
        assert forall|i: int| 0 <= i < longer.len() - 1 implies walk::premises(
            g,
            via_parent,
            #[trigger] longer[i],
        ).contains(longer[i + 1]) by {
            if i > 0 {
                assert(longer[i] == path[i - 1]);
                assert(longer[i + 1] == path[i - 1 + 1]);
            }
        }
        assert(longer.last() == z);
        assert(walk::connects(g, via_parent, x, z, longer));
    }
    if walk::stands_on(g, via_parent, x, z) && among.contains(z) && (forall|a: Text, b: Text|
        #![trigger g[a], among.contains(b)]
        g.dom().contains(a) && among.contains(b) && (g[a].blocked_by.contains(b) || via_parent
            && g[a].parent == Some(b)) ==> among.contains(a)) {
        let path = choose|path: Seq<Text>| walk::connects(g, via_parent, x, z, path);
        lemma_walk_stays(g, via_parent, among, path, 0);
    }
}

proof fn lemma_premise(g: Graph, via_parent: bool, x: Text, y: Text)
    ensures
        walk::premises(g, via_parent, x).contains(y) <==> g.dom().contains(x) && (
        g[x].blocked_by.contains(y) || via_parent && g[x].parent == Some(y)),
{
    if g.dom().contains(x) {
        let edges = walk::premises(g, via_parent, x);
        let blockers = g[x].blocked_by;
        if blockers.contains(y) {
            let i = choose|i: int| 0 <= i < blockers.len() && blockers[i] == y;
            assert(edges[i] == y);
        }
        if via_parent && g[x].parent == Some(y) {
            assert(edges[blockers.len() as int] == y);
        }
        if edges.contains(y) {
            let i = choose|i: int| 0 <= i < edges.len() && edges[i] == y;
            if i < blockers.len() {
                assert(blockers[i] == y);
            }
        }
    }
}

proof fn lemma_walk_stays(
    g: Graph,
    via_parent: bool,
    among: Set<Text>,
    path: Seq<Text>,
    k: int,
)
    requires
        walk::follows(g, via_parent, path),
        0 <= k < path.len(),
        among.contains(path.last()),
        forall|a: Text, b: Text|
            #![trigger g[a], among.contains(b)]
            g.dom().contains(a) && among.contains(b) && (g[a].blocked_by.contains(b) || via_parent
                && g[a].parent == Some(b)) ==> among.contains(a),
    ensures
        among.contains(path[k]),
    decreases path.len() - k,
{
    if k < path.len() - 1 {
        lemma_walk_stays(g, via_parent, among, path, k + 1);
        lemma_premise(g, via_parent, path[k], path[k + 1]);
        let head = g[path[k]];
        assert(g.dom().contains(path[k]));
    }
}

/// The heads that stand directly on another are its children and those that it blocks.
pub proof fn dependents_are_children_and_blocked_heads(g: Graph, slug: Text, at: Text)
    ensures
        cascade::dependents_of(g, at).contains(slug) <==> g.dom().contains(slug) && (
        g[slug].parent == Some(at) || g[slug].blocked_by.contains(at)),
{
}

/// The route that a refusal shows is the first: it goes from one head to the other by
/// parents and blockers, meets none twice, and where any other such route parts from it
/// that one takes a later turn, blockers being tried in their order and the parent last.
pub proof fn reported_route_takes_the_first_turns(
    g: Graph,
    via_parent: bool,
    from: Text,
    to: Text,
    other: Seq<Text>,
)
    requires
        g.dom().finite(),
        walk::stands_on(g, via_parent, from, to),
    ensures
        ({
            let path = walk::route_between(g, via_parent, from, to)->0;
            let turns = |at: Text|
                if !g.dom().contains(at) {
                    Seq::empty()
                } else if via_parent && g[at].parent is Some {
                    g[at].blocked_by + seq![g[at].parent->0]
                } else {
                    g[at].blocked_by
                };
            &&& walk::route_between(g, via_parent, from, to) is Some
            &&& path.len() > 0 && path[0] == from && path.last() == to
            &&& path.no_duplicates()
            &&& forall|i: int|
                0 <= i < path.len() - 1 ==> turns(#[trigger] path[i]).contains(path[i + 1])
            &&& other.len() > 0 && other[0] == from && other.last() == to && other.no_duplicates()
                && other != path && (forall|i: int|
                0 <= i < other.len() - 1 ==> turns(#[trigger] other[i]).contains(other[i + 1]))
                ==> exists|k: int, m: int|
                #![trigger path[k], turns(path[k])[m]]
                {
                    &&& 0 <= k < path.len() - 1
                    &&& k < other.len() - 1
                    &&& path.take(k + 1) == other.take(k + 1)
                    &&& 0 <= m < turns(path[k]).len()
                    &&& turns(path[k])[m] == path[k + 1]
                    &&& forall|j: int|
                        0 <= j <= m ==> #[trigger] turns(path[k])[j] != other[k + 1]
                }
        }),
{
    let path = walk::route_between(g, via_parent, from, to)->0;
    let turns = |at: Text|
        if !g.dom().contains(at) {
            Seq::empty()
        } else if via_parent && g[at].parent is Some {
            g[at].blocked_by + seq![g[at].parent->0]
        } else {
            g[at].blocked_by
        };
    walk::route_between_is_the_first(g, via_parent, from, to);
    assert forall|at: Text| walk::premises(g, via_parent, at) == #[trigger] turns(at) by {
        assert(walk::premises(g, via_parent, at) =~= turns(at));
    }
    assert forall|i: int| 0 <= i < path.len() - 1 implies turns(#[trigger] path[i]).contains(
        path[i + 1],
    ) by {
        assert(walk::premises(g, via_parent, path[i]).contains(path[i + 1]));
    }
    if other.len() > 0 && other[0] == from && other.last() == to && other.no_duplicates() && other
        != path && (forall|i: int|
        0 <= i < other.len() - 1 ==> turns(#[trigger] other[i]).contains(other[i + 1])) {
        assert forall|i: int| 0 <= i < other.len() - 1 implies walk::premises(
            g,
            via_parent,
            #[trigger] other[i],
        ).contains(other[i + 1]) by {
            assert(turns(other[i]).contains(other[i + 1]));
        }
        assert(walk::route(g, via_parent, from, to, other));
        let k = choose|k: int|
            #![trigger path[k]]
            {
                &&& 0 <= k < path.len() - 1
                &&& k < other.len() - 1
                &&& path.take(k + 1) == other.take(k + 1)
                &&& walk::first_at(walk::premises(g, via_parent, path[k]), path[k + 1])
                    < walk::first_at(walk::premises(g, via_parent, path[k]), other[k + 1])
            };
        let list = turns(path[k]);
        assert(walk::premises(g, via_parent, path[k]) == list);
        assert(list.contains(path[k + 1]));
        let m = walk::first_at(list, path[k + 1]);
        lemma_first_at(list, path[k + 1]);
        lemma_first_at(list, other[k + 1]);
        assert(turns(path[k])[m] == path[k + 1]);
    }
}

proof fn lemma_first_at(list: Seq<Text>, x: Text)
    ensures
        0 <= walk::first_at(list, x) <= list.len(),
        list.contains(x) ==> walk::first_at(list, x) < list.len() && list[walk::first_at(list, x)]
            == x,
        forall|j: int| 0 <= j < walk::first_at(list, x) ==> #[trigger] list[j] != x,
    decreases list.len(),
{
    if list.len() > 0 && list[0] != x {
        let rest = list.skip(1);
        lemma_first_at(rest, x);
        let n = walk::first_at(rest, x);
        if list.contains(x) {
            let k = choose|k: int| 0 <= k < list.len() && list[k] == x;
            assert(rest[k - 1] == x);
            assert(rest.contains(x));
            assert(rest[n] == list[n + 1]);
        }
        assert forall|j: int| 0 <= j < n + 1 implies #[trigger] list[j] != x by {
            if j > 0 {
                assert(list[j] == rest[j - 1]);
            }
        }
    }
}

/// The line of descent that a refused move shows leads from the head down to its new
/// parent: each is the parent of the next, and none occurs twice.
pub proof fn lines_of_descent_lead_down(g: Graph, top: Text, bottom: Text, line: Seq<Text>)
    ensures
        walk::lineage(g, top, bottom, line) <==> {
            &&& line.len() > 0
            &&& line[0] == top
            &&& line.last() == bottom
            &&& line.no_duplicates()
            &&& forall|i: int|
                0 < i < line.len() ==> g.dom().contains(#[trigger] line[i]) && g[line[i]].parent
                    == Some(line[i - 1])
        },
{
}

/// There is room for an edit in any tree whose counters are not at their end.
pub proof fn counters_that_are_not_full_leave_room(g: Graph, edit: Edit)
    requires
        forall|x: Text|
            #![trigger g[x]]
            g.dom().contains(x) ==> g[x].seq < u32::MAX && g[x].rev < u32::MAX,
    ensures
        cli::has_room(g, edit),
{
}

/// An edit on the command line is refused exactly as the operation that it asks for.
pub proof fn commands_are_refused_as_what_they_ask_for(g: Graph, edit: Edit)
    ensures
        match edit {
            Edit::Sprout { question, parent, blocked_by, slug } => {
                let args = cli::sprout_of(edit);
                &&& args.question == question@
                &&& args.parent == text::optional(parent)
                &&& args.blocked_by == text::texts(blocked_by@)
                &&& slug matches Some(given) ==> args.slug == Some(given@)
                &&& slug is None && query::first_line_of(question@) == question@ ==> args.slug
                    is None
                &&& cli::edit_refusal(g, edit) is None <==> graph::sprout_outcome(g, args) is Ok
                &&& graph::sprout_outcome(g, args) matches Err(e) ==> cli::edit_refusal(g, edit)
                    == Some(e)
            },
            Edit::Cut { slug, force, .. } => cli::edit_refusal(g, edit) == graph::cut_refusal(
                g,
                slug@,
                force,
            ),
            Edit::Cauterise { slug, by, force, .. } => cli::edit_refusal(g, edit)
                == graph::cauterise_refusal(g, slug@, by@, force),
            Edit::Reopen { slug } => cli::edit_refusal(g, edit) == graph::reopen_refusal(g, slug@),
            Edit::Reword { slug, .. } => cli::edit_refusal(g, edit) == graph::reword_refusal(
                g,
                slug@,
            ),
            Edit::Reparent { slug, parent } => cli::edit_refusal(g, edit)
                == graph::reparent_refusal(
                g,
                slug@,
                if parent@.len() == 0 {
                    None
                } else {
                    Some(parent@)
                },
            ),
            Edit::Link { slug, blocked_by, force } => cli::edit_refusal(g, edit)
                == graph::link_refusal(g, slug@, blocked_by@, force),
            Edit::Unlink { slug, .. } => cli::edit_refusal(g, edit) == graph::unlink_refusal(
                g,
                slug@,
            ),
        },
{
}

} // verus!

//! What the commands do, without what they read and write.
//!
//! A command that changes a tree is an [`Edit`], and one that looks at it is a
//! [`Query`]. The rest is how a command line is read: text that comes from the
//! standard input, rejected options, and defaults.

use vstd::prelude::*;

use crate::cascade;
use crate::error::{self, Error, ErrorView};
use crate::graph::{self, Cauterise, Cut, Sprout, SproutView};
use crate::model::{self, Graph, Rejected, RejectedView, Tree, TreeView};
use crate::order;
use crate::paths;
use crate::query::{self, Counts, CountsView, Detail, DetailView, Resume, ResumeView, Skeleton, SkeletonView};
use crate::render::{self, Colour};
use crate::slug as slugs;
use crate::sound;
use crate::store::{self, Found, Store, Write};
use crate::text::{self, Text};

verus! {

// ---------------------------------------------------------------------------
// The report of a change
// ---------------------------------------------------------------------------

/// What a change reports: the tree it was made in, so that a stale pointer to it
/// shows at once, and what is left to ask.
#[derive(Debug)]
pub struct Mutation {
    pub tree: String,
    /// The verb.
    pub op: &'static str,
    /// The head that was written, if it was one.
    pub slug: Option<String>,
    /// The heads that were reopened, sorted.
    pub reopened: Vec<String>,
    pub counts: Counts,
}

pub struct MutationView {
    pub tree: Text,
    pub op: Text,
    pub slug: Option<Text>,
    pub reopened: Seq<Text>,
    pub counts: CountsView,
}

impl View for Mutation {
    type V = MutationView;

    open spec fn view(&self) -> MutationView {
        MutationView {
            tree: self.tree@,
            op: self.op@,
            slug: text::optional(self.slug),
            reopened: text::texts(self.reopened@),
            counts: self.counts@,
        }
    }
}

pub open spec fn report_of(
    op: Text,
    tree: TreeView,
    slug: Option<Text>,
    reopened: Seq<Text>,
) -> MutationView {
    MutationView { tree: tree.slug, op, slug, reopened, counts: query::counts_of(tree) }
}

impl Mutation {
    pub fn new(
        op: &'static str,
        tree: &Tree,
        slug: Option<String>,
        reopened: Vec<String>,
    ) -> (r: Self)
        ensures
            r@ == report_of(op@, tree@, text::optional(slug), text::texts(reopened@)),
    {
        Mutation { tree: tree.slug.clone(), op, slug, reopened, counts: query::status(tree) }
    }
}

// ---------------------------------------------------------------------------
// Changes
// ---------------------------------------------------------------------------

/// A change to the active tree.
#[derive(Debug)]
#[allow(inconsistent_fields)]
pub enum Edit {
    Sprout {
        question: String,
        parent: Option<String>,
        blocked_by: Vec<String>,
        slug: Option<String>,
    },
    Cut {
        slug: String,
        answer: String,
        rationale: Option<String>,
        reject: Vec<Rejected>,
        keep_subtree: bool,
        force: bool,
    },
    Cauterise { slug: String, by: String, why: Option<String>, force: bool },
    Reopen { slug: String },
    Reword { slug: String, question: String },
    /// An empty parent, which is no slug, makes the head a root.
    Reparent { slug: String, parent: String },
    Link { slug: String, blocked_by: String, force: bool },
    Unlink { slug: String, blocked_by: String },
}

/// The slug that a head is sprouted under where none is given: for a question of
/// several lines that of its first line, since a slug should be short. A question
/// of one line is left to be derived, which may put a number behind it.
pub open spec fn narrowed(slug: Option<Text>, question: Text) -> Option<Text> {
    match slug {
        Some(slug) => Some(slug),
        None => {
            let line = query::first_line_of(question);
            if line != question {
                Some(slugs::slug_of(line))
            } else {
                None
            }
        },
    }
}

pub open spec fn sprout_request(
    question: Text,
    parent: Option<Text>,
    blocked_by: Seq<Text>,
    slug: Option<Text>,
) -> SproutView {
    SproutView { question, parent, blocked_by, slug: narrowed(slug, question) }
}

pub open spec fn parent_named(parent: Text) -> Option<Text> {
    if parent.len() == 0 {
        None
    } else {
        Some(parent)
    }
}

pub open spec fn verb_of(edit: Edit) -> Text {
    match edit {
        Edit::Sprout { .. } => "sprout"@,
        Edit::Cut { .. } => "cut"@,
        Edit::Cauterise { .. } => "cauterise"@,
        Edit::Reopen { .. } => "reopen"@,
        Edit::Reword { .. } => "reword"@,
        Edit::Reparent { .. } => "reparent"@,
        Edit::Link { .. } => "link"@,
        Edit::Unlink { .. } => "unlink"@,
    }
}

/// The request to sprout that an edit makes.
pub open spec fn sprout_of(edit: Edit) -> SproutView
    recommends
        edit is Sprout,
{
    match edit {
        Edit::Sprout { question, parent, blocked_by, slug } => sprout_request(
            question@,
            text::optional(parent),
            text::texts(blocked_by@),
            text::optional(slug),
        ),
        _ => arbitrary(),
    }
}

/// What refuses an edit.
pub open spec fn edit_refusal(g: Graph, edit: Edit) -> Option<ErrorView> {
    match edit {
        Edit::Sprout { .. } => match graph::sprout_outcome(g, sprout_of(edit)) {
            Ok(_) => None,
            Err(e) => Some(e),
        },
        Edit::Cut { slug, force, .. } => graph::cut_refusal(g, slug@, force),
        Edit::Cauterise { slug, by, force, .. } => graph::cauterise_refusal(g, slug@, by@, force),
        Edit::Reopen { slug } => graph::reopen_refusal(g, slug@),
        Edit::Reword { slug, .. } => graph::reword_refusal(g, slug@),
        Edit::Reparent { slug, parent } => graph::reparent_refusal(g, slug@, parent_named(parent@)),
        Edit::Link { slug, blocked_by, force } => graph::link_refusal(
            g,
            slug@,
            blocked_by@,
            force,
        ),
        Edit::Unlink { slug, .. } => graph::unlink_refusal(g, slug@),
    }
}

/// The head that an edit writes.
pub open spec fn edited(g: Graph, edit: Edit) -> Text {
    match edit {
        Edit::Sprout { .. } => match graph::sprout_outcome(g, sprout_of(edit)) {
            Ok(slug) => slug,
            Err(_) => Seq::empty(),
        },
        Edit::Cut { slug, .. } => slug@,
        Edit::Cauterise { slug, .. } => slug@,
        Edit::Reopen { slug } => slug@,
        Edit::Reword { slug, .. } => slug@,
        Edit::Reparent { slug, .. } => slug@,
        Edit::Link { slug, .. } => slug@,
        Edit::Unlink { slug, .. } => slug@,
    }
}

/// The heads that an edit reopens.
pub open spec fn reopened_by(g: Graph, edit: Edit) -> Set<Text> {
    match edit {
        Edit::Cut { slug, keep_subtree, .. } => graph::cascaded(g, slug@, keep_subtree),
        Edit::Cauterise { slug, .. } => graph::cascaded(g, slug@, false),
        Edit::Reopen { slug } => cascade::stale(g, slug@),
        _ => Set::empty(),
    }
}

/// `h` is `g` after an edit.
pub open spec fn edits(g: Graph, h: Graph, edit: Edit) -> bool {
    match edit {
        Edit::Sprout { .. } => {
            let slug = edited(g, edit);
            let head = h[slug];
            &&& head == graph::sprouted(g, sprout_of(edit), slug, head.id, head.created_at)
            &&& head.created_at.is_whole()
            &&& head.created_at.in_range()
            &&& h == g.insert(slug, head)
        },
        Edit::Cut { slug, answer, rationale, reject, keep_subtree, .. } => graph::answers(
            g,
            h,
            slug@,
            graph::decision(answer@, text::optional(rationale), model::rejections(reject@)),
            keep_subtree,
        ),
        Edit::Cauterise { slug, by, why, .. } => graph::answers(
            g,
            h,
            slug@,
            graph::killed(by@, text::optional(why)),
            false,
        ),
        Edit::Reopen { slug } => {
            &&& g[slug@].reopened().now_is(h[slug@])
            &&& cascade::reopens(g.insert(slug@, h[slug@]), h, cascade::stale(g, slug@))
        },
        Edit::Reword { slug, question } => graph::rewrites(
            g,
            h,
            slug@,
            g[slug@].reworded(question@),
        ),
        Edit::Reparent { slug, parent } => graph::reseats(g, h, slug@, parent_named(parent@)),
        Edit::Link { slug, blocked_by, .. } => graph::links(g, h, slug@, blocked_by@),
        Edit::Unlink { slug, blocked_by } => graph::unlinks(g, h, slug@, blocked_by@),
    }
}

/// The counters that an edit would raise have room: the number of a head that is
/// sprouted, or moved to where it is not already, and the revision of one that is
/// answered.
pub open spec fn has_room(g: Graph, edit: Edit) -> bool {
    match edit {
        Edit::Sprout { parent, .. } => graph::seats_left(g, text::optional(parent)),
        Edit::Cut { slug, .. } => revision_left(g, slug@),
        Edit::Cauterise { slug, .. } => revision_left(g, slug@),
        Edit::Reparent { slug, parent } => graph::child_of(g, parent_named(parent@), slug@)
            || graph::seats_left(g, parent_named(parent@)),
        _ => true,
    }
}

/// There is a number left for one more answer to `slug`.
pub open spec fn revision_left(g: Graph, slug: Text) -> bool {
    g.dom().contains(slug) ==> g[slug].rev < u32::MAX
}

fn is_revision_left(tree: &Tree, slug: &str) -> (r: bool)
    ensures
        r == revision_left(tree@.heads, slug@),
{
    match tree.heads.get(slug) {
        Some(head) => head.rev < u32::MAX,
        None => true,
    }
}

fn is_child(tree: &Tree, parent: Option<&str>, slug: &str) -> (r: bool)
    ensures
        r == graph::child_of(tree@.heads, text::optional_str(parent), slug@),
{
    match tree.heads.get(slug) {
        Some(head) => text::same_option(&head.parent, parent),
        None => false,
    }
}

/// Whether an edit can be handed to [`apply`]: it is refused, or the counters that
/// it would raise have room. A tree that was not tampered with is far from the end
/// of them.
pub fn has_room_for(tree: &Tree, edit: &Edit) -> (r: bool)
    ensures
        r == (edit_refusal(tree@.heads, *edit) is None ==> has_room(tree@.heads, *edit)),
{
    match edit {
        Edit::Sprout { question, parent, blocked_by, slug } => {
            let blockers = borrowed(blocked_by);
            let chosen = narrow(slug, question.as_str());
            let args = Sprout {
                question: question.as_str(),
                parent: borrowed_option(parent),
                blocked_by: blockers.as_slice(),
                slug: borrowed_option(&chosen),
            };
            graph::check_sprout(tree, &args).is_err() || graph::are_seats_left(
                tree,
                borrowed_option(parent),
            )
        },
        Edit::Cut { slug, force, .. } => graph::check_cut(tree, slug.as_str(), *force).is_err()
            || is_revision_left(tree, slug.as_str()),
        Edit::Cauterise { slug, by, force, .. } => graph::check_cauterise(
            tree,
            slug.as_str(),
            by.as_str(),
            *force,
        ).is_err() || is_revision_left(tree, slug.as_str()),
        Edit::Reparent { slug, parent } => graph::check_reparent(
            tree,
            slug.as_str(),
            parent_in(parent),
        ).is_err() || is_child(tree, parent_in(parent), slug.as_str()) || graph::are_seats_left(
            tree,
            parent_in(parent),
        ),
        _ => true,
    }
}

/// The parent that a command line names: an empty one is none.
fn parent_in(parent: &String) -> (r: Option<&str>)
    ensures
        text::optional_str(r) == parent_named(parent@),
{
    if parent.as_str().unicode_len() == 0 {
        None
    } else {
        Some(parent.as_str())
    }
}

fn borrowed(list: &Vec<String>) -> (r: Vec<&str>)
    ensures
        text::str_texts(r@) == text::texts(list@),
{
    let mut out: Vec<&str> = Vec::new();
    for i in 0..list.len()
        invariant
            out@.len() == i,
            forall|j: int| 0 <= j < i ==> (#[trigger] out@[j])@ == list@[j]@,
    {
        out.push(list[i].as_str());
    }
    assert(text::str_texts(out@) =~= text::texts(list@));
    out
}

fn borrowed_option(t: &Option<String>) -> (r: Option<&str>)
    ensures
        text::optional_str(r) == text::optional(*t),
{
    match t {
        Some(t) => Some(t.as_str()),
        None => None,
    }
}

fn narrow(slug: &Option<String>, question: &str) -> (r: Option<String>)
    ensures
        text::optional(r) == narrowed(text::optional(*slug), question@),
{
    match slug {
        Some(slug) => Some(slug.clone()),
        None => {
            let line = query::first_line(question);
            if text::same(line, question) {
                None
            } else {
                Some(slugs::slugify(line))
            }
        },
    }
}

fn nothing() -> (r: Vec<String>)
    ensures
        text::texts(r@) == order::in_order(Set::empty()),
{
    let none: Vec<String> = Vec::new();
    proof {
        order::by_text_is_strict();
        assert(text::texts(none@) =~= Seq::<Text>::empty());
        order::arranged_is(Seq::empty(), Set::<Text>::empty(), order::by_text());
    }
    none
}

/// Makes an edit and reports it. One that is refused leaves the tree as it was.
pub fn apply(tree: &mut Tree, edit: Edit) -> (r: Result<Mutation, Error>)
    requires
        edit_refusal(old(tree)@.heads, edit) is None ==> has_room(old(tree)@.heads, edit),
    ensures
        match r {
            Ok(report) => {
                let g = old(tree)@.heads;
                &&& edit_refusal(g, edit) is None
                &&& edits(g, final(tree)@.heads, edit)
                &&& final(tree)@ == old(tree)@.with_heads(final(tree)@.heads)
                &&& report@ == report_of(
                    verb_of(edit),
                    final(tree)@,
                    Some(edited(g, edit)),
                    order::in_order(reopened_by(g, edit)),
                )
            },
            Err(e) => {
                &&& edit_refusal(old(tree)@.heads, edit) == Some(e@)
                &&& final(tree)@ == old(tree)@
            },
        },
{
    let ghost g = tree@.heads;
    match edit {
        Edit::Sprout { question, parent, blocked_by, slug } => {
            let slug = narrow(&slug, question.as_str());
            let blockers = borrowed(&blocked_by);
            let args = Sprout {
                question: question.as_str(),
                parent: borrowed_option(&parent),
                blocked_by: blockers.as_slice(),
                slug: borrowed_option(&slug),
            };
            assert(args@ == sprout_of(edit));
            match graph::sprout(tree, args) {
                Ok(slug) => Ok(Mutation::new("sprout", tree, Some(slug), nothing())),
                Err(e) => Err(e),
            }
        },
        Edit::Cut { slug, answer, rationale, reject, keep_subtree, force } => {
            let args = Cut {
                slug: slug.as_str(),
                answer: answer.as_str(),
                rationale: borrowed_option(&rationale),
                rejected: reject,
                keep_subtree,
                force,
            };
            match graph::cut(tree, args) {
                Ok(reopened) => Ok(Mutation::new("cut", tree, Some(slug.clone()), reopened)),
                Err(e) => Err(e),
            }
        },
        Edit::Cauterise { slug, by, why, force } => {
            let args = Cauterise {
                slug: slug.as_str(),
                by: by.as_str(),
                why: borrowed_option(&why),
                force,
            };
            match graph::cauterise(tree, args) {
                Ok(reopened) => Ok(Mutation::new("cauterise", tree, Some(slug.clone()), reopened)),
                Err(e) => Err(e),
            }
        },
        Edit::Reopen { slug } => match graph::reopen(tree, slug.as_str()) {
            Ok(reopened) => Ok(Mutation::new("reopen", tree, Some(slug), reopened)),
            Err(e) => Err(e),
        },
        Edit::Reword { slug, question } => match graph::reword(
            tree,
            slug.as_str(),
            question.as_str(),
        ) {
            Ok(()) => Ok(Mutation::new("reword", tree, Some(slug), nothing())),
            Err(e) => Err(e),
        },
        Edit::Reparent { slug, parent } => {
            match graph::reparent(tree, slug.as_str(), parent_in(&parent)) {
                Ok(()) => Ok(Mutation::new("reparent", tree, Some(slug), nothing())),
                Err(e) => Err(e),
            }
        },
        Edit::Link { slug, blocked_by, force } => match graph::link(
            tree,
            slug.as_str(),
            blocked_by.as_str(),
            force,
        ) {
            Ok(()) => Ok(Mutation::new("link", tree, Some(slug), nothing())),
            Err(e) => Err(e),
        },
        Edit::Unlink { slug, blocked_by } => match graph::unlink(
            tree,
            slug.as_str(),
            blocked_by.as_str(),
        ) {
            Ok(()) => Ok(Mutation::new("unlink", tree, Some(slug), nothing())),
            Err(e) => Err(e),
        },
    }
}

/// The edit adds a blocker by force, which is the one way to close a cycle.
pub open spec fn forces_an_edge(edit: Edit) -> bool {
    edit matches Edit::Link { force, .. } && force
}

/// Every edit that is not refused keeps a tree in good order, and every one that
/// does not force an edge keeps it free of cycles.
pub proof fn edits_keep_soundness(g: Graph, h: Graph, edit: Edit)
    requires
        sound::tidy(g),
        edit_refusal(g, edit) is None,
        has_room(g, edit),
        edits(g, h, edit),
    ensures
        sound::tidy(h),
        sound::acyclic(g) && !forces_an_edge(edit) ==> sound::acyclic(h),
{
    match edit {
        Edit::Sprout { .. } => {
            let slug = edited(g, edit);
            let head = h[slug];
            sound::sprout_keeps_soundness(g, sprout_of(edit), slug, head.id, head.created_at);
        },
        Edit::Cut { slug, answer, rationale, reject, keep_subtree, .. } => {
            let given = graph::decision(
                answer@,
                text::optional(rationale),
                model::rejections(reject@),
            );
            sound::answering_keeps_soundness(g, h, slug@, given, keep_subtree);
        },
        Edit::Cauterise { slug, by, why, .. } => {
            let given = graph::killed(by@, text::optional(why));
            sound::answering_keeps_soundness(g, h, slug@, given, false);
        },
        Edit::Reopen { slug } => sound::reopening_keeps_soundness(g, h, slug@),
        Edit::Reword { slug, question } => sound::rewording_keeps_soundness(
            g,
            h,
            slug@,
            question@,
        ),
        Edit::Reparent { slug, parent } => sound::reparenting_keeps_soundness(
            g,
            h,
            slug@,
            parent_named(parent@),
        ),
        Edit::Link { slug, blocked_by, force } => sound::linking_keeps_soundness(
            g,
            h,
            slug@,
            blocked_by@,
            force,
        ),
        Edit::Unlink { slug, blocked_by } => sound::unlinking_keeps_soundness(
            g,
            h,
            slug@,
            blocked_by@,
        ),
    }
}

impl Store {
    /// Makes an edit to the tree of a slug, from what was found at its path. Hands
    /// back the report and the tree to save; where loading or the edit fails, or the
    /// tree cannot be saved, there is nothing to write.
    pub fn edit_tree(&self, slug: &str, found: Found, edit: Edit) -> (r: Result<
        (Mutation, Tree),
        Error,
    >)
        requires
            store::loaded(self@, slug@, found) matches Ok(tree) ==> edit_refusal(
                tree.heads,
                edit,
            ) is None ==> has_room(tree.heads, edit),
        ensures
            match store::loaded(self@, slug@, found) {
                Err(refusal) => r matches Err(e) && e@ == refusal,
                Ok(tree) => match edit_refusal(tree.heads, edit) {
                    Some(refusal) => r matches Err(e) && e@ == refusal,
                    None => match store::save_refusal(tree) {
                        Some(refusal) => r matches Err(e) && e@ == refusal,
                        None => {
                            &&& r matches Ok(out)
                            &&& edits(tree.heads, out.1@.heads, edit)
                            &&& out.1@ == tree.with_heads(out.1@.heads)
                            &&& out.0@ == report_of(
                                verb_of(edit),
                                out.1@,
                                Some(edited(tree.heads, edit)),
                                order::in_order(reopened_by(tree.heads, edit)),
                            )
                        },
                    },
                },
            },
    {
        let change = |tree: &mut Tree| -> (r: Result<Mutation, Error>)
            requires
                edit_refusal((*tree)@.heads, edit) is None ==> has_room((*tree)@.heads, edit),
            ensures
                match r {
                    Ok(report) => {
                        let g = old(tree)@.heads;
                        &&& edit_refusal(g, edit) is None
                        &&& edits(g, final(tree)@.heads, edit)
                        &&& final(tree)@ == old(tree)@.with_heads(final(tree)@.heads)
                        &&& report@ == report_of(
                            verb_of(edit),
                            final(tree)@,
                            Some(edited(g, edit)),
                            order::in_order(reopened_by(g, edit)),
                        )
                    },
                    Err(e) => edit_refusal(old(tree)@.heads, edit) == Some(e@),
                },
            { apply(tree, edit) };
        self.with_tree_mut(slug, found, change)
    }
}

impl Store {
    /// Makes a tree that was created or loaded under `slug` the active one. Hands
    /// back what to write and the report.
    pub fn activate(&self, op: &'static str, slug: &str, tree: &Tree) -> (r: Result<
        (Write, Mutation),
        Error,
    >)
        ensures
            match r {
                Ok(out) => {
                    &&& slugs::well_formed(slug@)
                    &&& out.0.path@ == paths::within(self@, store::HEAD@)
                    &&& out.0.contents@ == store::head_contents(slug@)
                    &&& out.1@ == report_of(op@, tree@, None, Seq::empty())
                },
                Err(e) => !slugs::well_formed(slug@) && e@ == (ErrorView::MalformedSlug {
                    slug: slug@,
                }),
            },
    {
        match self.set_head(slug) {
            Ok(write) => {
                let none: Vec<String> = Vec::new();
                assert(text::texts(none@) =~= Seq::<Text>::empty());
                Ok((write, Mutation::new(op, tree, None, none)))
            },
            Err(e) => Err(e),
        }
    }
}

/// What an edit leaves of a tree that was loaded and can be saved, can be saved and
/// is handed back when it is loaded again: an edit changes neither the slug nor the version.
pub proof fn edited_tree_loads(dir: Text, slug: Text, before: Tree, after: Tree)
    requires
        store::loaded(dir, slug, Found::Tree(before)) is Ok,
        store::save_refusal(before@) is None,
        after@ == before@.with_heads(after@.heads),
    ensures
        after@.slug == before@.slug,
        store::save_refusal(after@) is None,
        store::loaded(dir, after@.slug, Found::Tree(after)) == Ok::<TreeView, ErrorView>(after@),
{
}

// ---------------------------------------------------------------------------
// Looks
// ---------------------------------------------------------------------------

/// A look at the active tree.
#[derive(Debug)]
pub enum Query {
    Status,
    Ready,
    Next,
    Show(String),
    Resume,
    Tree(Colour),
}

/// What a look shows.
#[derive(Debug)]
pub enum Output {
    Counts(Counts),
    Rows(Vec<Skeleton>),
    Detail(Option<Detail>),
    Resume(Resume),
    Drawing(String),
}

pub enum OutputView {
    Counts(CountsView),
    Rows(Seq<SkeletonView>),
    Detail(Option<DetailView>),
    Resume(ResumeView),
    Drawing(Text),
}

impl View for Output {
    type V = OutputView;

    open spec fn view(&self) -> OutputView {
        match *self {
            Output::Counts(counts) => OutputView::Counts(counts@),
            Output::Rows(rows) => OutputView::Rows(query::rows(rows@)),
            Output::Detail(detail) => OutputView::Detail(query::detail_view(detail)),
            Output::Resume(resume) => OutputView::Resume(resume@),
            Output::Drawing(drawing) => OutputView::Drawing(drawing@),
        }
    }
}

/// What a look at a tree shows, or what refuses it.
pub open spec fn seen(tree: TreeView, q: Query) -> Result<OutputView, ErrorView> {
    let g = tree.heads;
    match q {
        Query::Status => Ok(OutputView::Counts(query::counts_of(tree))),
        Query::Ready => Ok(OutputView::Rows(query::rows_of(g, query::ready_order(g)))),
        Query::Next => Ok(
            OutputView::Detail(
                match query::next_of(g) {
                    Some(slug) => Some(query::detail_of(g, slug)),
                    None => None,
                },
            ),
        ),
        Query::Show(slug) => if g.dom().contains(slug@) {
            Ok(OutputView::Detail(Some(query::detail_of(g, slug@))))
        } else {
            Err(ErrorView::UnknownHead { slug: slug@ })
        },
        Query::Resume => Ok(OutputView::Resume(query::resume_of(tree))),
        Query::Tree(colour) => Ok(OutputView::Drawing(render::drawing(tree, colour))),
    }
}

/// The exit code of a look: that of the counts tells whether heads are open, all
/// others are a success even when there is nothing to show.
pub open spec fn exit_of(tree: TreeView, q: Query) -> i32 {
    if q is Status && !query::counts_of(tree).done {
        error::OPEN
    } else {
        error::OK
    }
}

/// The counts exit with success exactly when no head is open.
pub proof fn counts_succeed_when_none_is_open(tree: TreeView)
    requires
        tree.heads.dom().finite(),
    ensures
        exit_of(tree, Query::Status) == error::OK <==> query::counts_of(tree).open == 0,
        exit_of(tree, Query::Status) == error::OPEN <==> query::counts_of(tree).open > 0,
{
    query::counts_add_up(tree);
}

/// Looks at a tree. Hands back what to show and the exit code.
pub fn look(tree: &Tree, q: Query) -> (r: Result<(Output, i32), Error>)
    ensures
        match r {
            Ok(out) => {
                &&& seen(tree@, q) == Ok::<OutputView, ErrorView>(out.0@)
                &&& out.1 == exit_of(tree@, q)
            },
            Err(e) => seen(tree@, q) == Err::<OutputView, ErrorView>(e@),
        },
{
    match q {
        Query::Status => {
            let counts = query::status(tree);
            let code: i32 = if counts.done {
                error::OK
            } else {
                error::OPEN
            };
            Ok((Output::Counts(counts), code))
        },
        Query::Ready => Ok((Output::Rows(query::ready(tree)), error::OK)),
        Query::Next => Ok((Output::Detail(query::next(tree)), error::OK)),
        Query::Show(slug) => match query::show(tree, slug.as_str()) {
            Ok(detail) => Ok((Output::Detail(Some(detail)), error::OK)),
            Err(e) => Err(e),
        },
        Query::Resume => Ok((Output::Resume(query::resume(tree)), error::OK)),
        Query::Tree(colour) => Ok((Output::Drawing(render::render(tree, colour)), error::OK)),
    }
}

// ---------------------------------------------------------------------------
// The list of trees
// ---------------------------------------------------------------------------

/// One row of the list of trees. A tree that cannot be read has a row too, which
/// says why: the list is how one finds out which file is damaged.
#[derive(Debug)]
pub struct Listed {
    pub tree: String,
    /// It is the active one.
    pub current: bool,
    pub counts: Option<Counts>,
    pub error: Option<String>,
}

pub struct ListedView {
    pub tree: Text,
    pub current: bool,
    pub counts: Option<CountsView>,
    pub error: Option<Text>,
}

impl View for Listed {
    type V = ListedView;

    open spec fn view(&self) -> ListedView {
        ListedView {
            tree: self.tree@,
            current: self.current,
            counts: match self.counts {
                Some(counts) => Some(counts@),
                None => None,
            },
            error: text::optional(self.error),
        }
    }
}

pub open spec fn listed_of(slug: Text, found: Result<Tree, Error>, head: Option<Text>) -> ListedView {
    ListedView {
        tree: slug,
        current: head == Some(slug),
        counts: match found {
            Ok(tree) => Some(query::counts_of(tree@)),
            Err(_) => None,
        },
        error: match found {
            Ok(_) => None,
            Err(e) => Some(error::message_of(e@)),
        },
    }
}

impl Listed {
    /// The row of a tree, from what loading it gave.
    pub fn read(slug: String, found: &Result<Tree, Error>, head: Option<&str>) -> (r: Self)
        ensures
            r@ == listed_of(slug@, *found, text::optional_str(head)),
    {
        let current = match head {
            Some(head) => text::same(head, slug.as_str()),
            None => false,
        };
        match found {
            Ok(tree) => Listed {
                tree: slug,
                current,
                counts: Some(query::status(tree)),
                error: None,
            },
            Err(e) => Listed { tree: slug, current, counts: None, error: Some(e.message()) },
        }
    }
}

// ---------------------------------------------------------------------------
// Text from the standard input
// ---------------------------------------------------------------------------

/// What stands for the standard input on a command line.
pub const STDIN: &'static str = "-";

/// What to do about the standard input.
#[derive(Debug)]
pub enum Stdin {
    /// No field asks for it.
    Unused,
    /// The field at this place gets it.
    Fills(usize),
    /// More than one asks for it, and it can be read once: what to tell the user.
    Contested(String),
}

pub enum StdinView {
    Unused,
    Fills(nat),
    Contested(Text),
}

impl View for Stdin {
    type V = StdinView;

    open spec fn view(&self) -> StdinView {
        match *self {
            Stdin::Unused => StdinView::Unused,
            Stdin::Fills(at) => StdinView::Fills(at as nat),
            Stdin::Contested(message) => StdinView::Contested(message@),
        }
    }
}

/// The fields of a command, each with its flag and its value.
pub open spec fn fields_of(fields: Seq<(&'static str, String)>) -> Seq<(Text, Text)> {
    fields.map_values(|f: (&'static str, String)| (f.0@, f.1@))
}

/// The places of the first `n` fields that ask for the standard input.
pub open spec fn asking(fields: Seq<(Text, Text)>, n: nat) -> Seq<nat>
    decreases n,
{
    if n == 0 {
        Seq::empty()
    } else {
        let before = asking(fields, (n - 1) as nat);
        if fields[n - 1].1 == STDIN@ {
            before.push((n - 1) as nat)
        } else {
            before
        }
    }
}

pub open spec fn contest(flags: Seq<Text>) -> Text {
    text::concat(
        seq![
            "only one field can read stdin, and "@,
            text::joined(flags, " and "@),
            " both ask for -"@,
        ],
    )
}

pub open spec fn stdin_plan(fields: Seq<(Text, Text)>) -> StdinView {
    let places = asking(fields, fields.len());
    if places.len() == 0 {
        StdinView::Unused
    } else if places.len() == 1 {
        StdinView::Fills(places[0])
    } else {
        StdinView::Contested(contest(places.map_values(|at: nat| fields[at as int].0)))
    }
}

/// Which field gets the standard input. At most one can: a second would silently
/// get nothing.
pub fn resolve_stdin(fields: &Vec<(&'static str, String)>) -> (r: Stdin)
    ensures
        r@ == stdin_plan(fields_of(fields@)),
        r matches Stdin::Fills(at) ==> at < fields@.len() && fields@[at as int].1@ == STDIN@,
{
    let ghost all = fields_of(fields@);
    let mut places: Vec<usize> = Vec::new();
    let mut flags: Vec<String> = Vec::new();
    let ghost name = |at: nat| all[at as int].0;
    assert(text::texts(flags@) =~= asking(all, 0).map_values(name));
    for i in 0..fields.len()
        invariant
            all == fields_of(fields@),
            name == (|at: nat| all[at as int].0),
            places@.len() == asking(all, i as nat).len(),
            forall|j: int|
                0 <= j < places@.len() ==> #[trigger] places@[j] == asking(all, i as nat)[j]
                    && places@[j] < i && fields@[places@[j] as int].1@ == STDIN@,
            text::texts(flags@) == asking(all, i as nat).map_values(name),
    {
        let ghost before = asking(all, i as nat);
        assert(all[i as int] == (fields@[i as int].0@, fields@[i as int].1@));
        if text::same(fields[i].1.as_str(), STDIN) {
            let flag = text::owned(fields[i].0);
            proof {
                assert(text::texts(flags@.push(flag)) =~= text::texts(flags@).push(flag@));
                assert(before.push(i as nat).map_values(name) =~= before.map_values(name).push(
                    flag@,
                ));
            }
            places.push(i);
            flags.push(flag);
        }
    }
    if places.len() == 0 {
        Stdin::Unused
    } else if places.len() == 1 {
        Stdin::Fills(places[0])
    } else {
        let list = text::join(&flags, " and ");
        let parts = vec![
            "only one field can read stdin, and ",
            list.as_str(),
            " both ask for -",
        ];
        proof {
            let want = asking(all, all.len()).map_values(|at: nat| all[at as int].0);
            assert(text::texts(flags@) =~= want);
            assert(text::str_texts(parts@) =~= seq![
                "only one field can read stdin, and "@,
                text::joined(want, " and "@),
                " both ask for -"@,
            ]);
        }
        Stdin::Contested(text::glue(&parts))
    }
}

/// What a field gets of the standard input: all of it but the white space at its
/// end, which a pipe leaves there. Where that is nothing, what to tell the user.
pub fn read_stdin(flag: &str, raw: &str) -> (r: Result<String, String>)
    ensures
        match r {
            Ok(t) => t@ == text::trimmed_end(raw@) && t@.len() > 0,
            Err(message) => {
                &&& text::trimmed_end(raw@).len() == 0
                &&& message@ == flag@ + " - was given, but stdin was empty"@
            },
        },
{
    let t = text::trim_end(raw);
    if t.unicode_len() > 0 {
        Ok(text::owned(t))
    } else {
        let mut message = text::owned(flag);
        message.append(" - was given, but stdin was empty");
        Err(message)
    }
}

// ---------------------------------------------------------------------------
// Rejected options
// ---------------------------------------------------------------------------

/// A text in quotes, escaped for a reader.
pub uninterp spec fn escaped(t: Text) -> Text;

/// The `Debug` form of a string in the standard library, by `format!`: the text
/// in quotes, with what does not print escaped. How is left to the name.
#[verifier::external_body]
fn escape(t: &str) -> (r: String)
    ensures
        r@ == escaped(t@),
{
    format!("{:?}", t)
}

/// What stands before and behind the first colon.
pub open spec fn split_at_colon(t: Text) -> Option<(Text, Text)>
    decreases t.len(),
{
    if t.len() == 0 {
        None
    } else if t[0] == ':' {
        Some((Seq::empty(), t.skip(1)))
    } else {
        match split_at_colon(t.skip(1)) {
            Some((front, back)) => Some((seq![t[0]] + front, back)),
            None => None,
        }
    }
}

pub open spec fn malformed(raw: Text, why: Text) -> Text {
    text::concat(seq!["expected \"<option>: <why>\", got "@, escaped(raw), ": "@, why])
}

/// An option and why it was rejected, from `<option>: <why>`. Neither may be
/// blank: a rejection without its reason would not keep anyone from proposing the
/// same again.
pub open spec fn rejection_of(raw: Text) -> Result<RejectedView, Text> {
    match split_at_colon(raw) {
        None => Err(malformed(raw, "no ':' to split on"@)),
        Some((option, why_not)) => if text::trimmed(option).len() == 0 {
            Err(malformed(raw, "the option is empty"@))
        } else if text::trimmed(why_not).len() == 0 {
            Err(malformed(raw, "the reason is empty"@))
        } else {
            Ok(RejectedView { option: text::trimmed(option), why_not: text::trimmed(why_not) })
        },
    }
}

proof fn lemma_split(t: Text, n: int)
    requires
        0 <= n <= t.len(),
        forall|i: int| 0 <= i < n ==> #[trigger] t[i] != ':',
        n < t.len() ==> t[n] == ':',
    ensures
        split_at_colon(t) == (if n < t.len() {
            Some((t.take(n), t.skip(n + 1)))
        } else {
            None
        }),
    decreases t.len(),
{
    if t.len() > 0 {
        if n == 0 {
            assert(t.take(0) =~= Seq::<char>::empty());
        } else {
            assert(t[0] != ':');
            let rest = t.skip(1);
            assert forall|i: int| 0 <= i < n - 1 implies #[trigger] rest[i] != ':' by {
                assert(t[i + 1] != ':');
            }
            lemma_split(rest, n - 1);
            if n < t.len() {
                assert(seq![t[0]] + rest.take(n - 1) =~= t.take(n));
                assert(rest.skip(n) =~= t.skip(n + 1));
            }
        }
    }
}

fn complain(raw: &str, why: &str) -> (r: String)
    ensures
        r@ == malformed(raw@, why@),
{
    let shown = escape(raw);
    let parts = vec!["expected \"<option>: <why>\", got ", shown.as_str(), ": ", why];
    assert(text::str_texts(parts@) =~= seq![
        "expected \"<option>: <why>\", got "@,
        escaped(raw@),
        ": "@,
        why@,
    ]);
    text::glue(&parts)
}

/// An option and why it was rejected, or what to tell the user.
pub fn parse_reject(raw: &str) -> (r: Result<Rejected, String>)
    ensures
        match r {
            Ok(rejected) => rejection_of(raw@) == Ok::<RejectedView, Text>(rejected@),
            Err(message) => rejection_of(raw@) == Err::<RejectedView, Text>(message@),
        },
{
    let chars = text::chars_of(raw);
    let count: usize = chars.len();
    let mut at: usize = 0;
    while at < count && chars[at] != ':'
        invariant
            chars@ == raw@,
            count == chars@.len(),
            at <= count,
            forall|i: int| 0 <= i < at ==> #[trigger] raw@[i] != ':',
        decreases count - at,
    {
        at = at + 1;
    }
    proof {
        lemma_split(raw@, at as int);
    }
    if at == count {
        return Err(complain(raw, "no ':' to split on"));
    }
    proof {
        assert(raw@.subrange(0, at as int) =~= raw@.take(at as int));
        assert(raw@.subrange(at + 1, count as int) =~= raw@.skip(at + 1));
    }
    let option = text::trim(raw.substring_char(0, at));
    let why_not = text::trim(raw.substring_char(at + 1, count));
    if option.unicode_len() == 0 {
        return Err(complain(raw, "the option is empty"));
    }
    if why_not.unicode_len() == 0 {
        return Err(complain(raw, "the reason is empty"));
    }
    Ok(Rejected { option: text::owned(option), why_not: text::owned(why_not) })
}

// ---------------------------------------------------------------------------
// New trees
// ---------------------------------------------------------------------------

/// The slug of a tree that is given none: that of the directory that holds the
/// store, or a fixed one where nothing is left of its name.
pub open spec fn default_slug_of(name: Option<Text>) -> Text {
    match name {
        Some(name) if slugs::slug_of(name).len() > 0 => slugs::slug_of(name),
        _ => "hydra"@,
    }
}

pub fn default_slug(name: Option<&str>) -> (r: String)
    ensures
        r@ == default_slug_of(text::optional_str(name)),
{
    match name {
        Some(name) => {
            let derived = slugs::slugify(name);
            if derived.as_str().unicode_len() > 0 {
                derived
            } else {
                text::owned("hydra")
            }
        },
        None => text::owned("hydra"),
    }
}

/// The slug of a tree that is given none is well formed.
pub proof fn default_slug_is_well_formed(name: Option<Text>)
    ensures
        slugs::well_formed(default_slug_of(name)),
{
    match name {
        Some(name) => slugs::derived_slug_is_well_formed(name),
        None => {},
    }
    reveal_strlit("hydra");
}

/// Refuses an intent that is blank: a tree has to say what it is for.
pub fn check_intent(intent: &str) -> (r: Result<(), String>)
    ensures
        r is Ok <==> text::trimmed(intent@).len() > 0,
        r matches Err(message) ==> message@
            == "--intent is blank: say what the interview is for"@,
{
    if text::trim(intent).unicode_len() > 0 {
        Ok(())
    } else {
        Err(text::owned("--intent is blank: say what the interview is for"))
    }
}

/// The active tree, for a listing: trees can be listed where none of them is
/// active, but not where it cannot be told.
pub fn head_for_listing(head: Result<String, Error>) -> (r: Result<Option<String>, Error>)
    ensures
        match head {
            Ok(slug) => r == Ok::<Option<String>, Error>(Some(slug)),
            Err(Error::HeadUnset) => r == Ok::<Option<String>, Error>(None),
            Err(e) => r == Err::<Option<String>, Error>(e),
        },
{
    match head {
        Ok(slug) => Ok(Some(slug)),
        Err(Error::HeadUnset) => Ok(None),
        Err(e) => Err(e),
    }
}

/// What to tell the user of a store that was found above the directory they are
/// in: a new tree goes into it rather than into one of its own, which would hide
/// it.
pub fn adoption(store: &Store, cwd: &str) -> (r: Option<String>)
    ensures
        text::optional(r) == (if store@ == paths::within(cwd@, store::DIR@) {
            None
        } else {
            Some("using the store at "@ + store@)
        }),
{
    let own = Store::init(cwd);
    if text::same(store.dir(), own.dir()) {
        None
    } else {
        let mut message = text::owned("using the store at ");
        message.append(store.dir());
        Some(message)
    }
}

} // verus!

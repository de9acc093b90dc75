//! Views hide nothing: every field of a value shows in its view.
//!
//! Contracts speak of views. Here it is said what a view shows, down to the texts and
//! the items of lists, so that two values with one view hold the same.

use vstd::prelude::*;

use crate::cli::{self, Listed, Mutation, Output, OutputView, Stdin, StdinView};
use crate::complete::{self, Candidate};
use crate::error::{Error, ErrorView};
use crate::graph::Sprout;
use crate::grill::{self, Lease};
use crate::hook::{Payload, Response, Specific};
use crate::json::{self, Json, JsonView};
use crate::model::{Answer, Graph, Head, Tree};
use crate::preorder::{self as reading, Visit};
use crate::query::{self, Counts, Detail, Resume, Skeleton};
use crate::store::{LockStep, LockStepView};
use crate::text;
use crate::walk;

verus! {

// ---------------------------------------------------------------------------
// Texts and lists
// ---------------------------------------------------------------------------

/// A text that may be missing shows whether it is and, if it is not, what it says.
pub proof fn optional_text_shows(t: String, s: &str)
    ensures
        text::optional(None) is None,
        text::optional(Some(t)) == Some(t@),
        text::optional_str(None) is None,
        text::optional_str(Some(s)) == Some(s@),
{
}

/// A list of texts shows every one of them, in order.
pub proof fn lists_of_text_show_every_item(list: Seq<String>, strs: Seq<&str>, i: int)
    ensures
        text::texts(list).len() == list.len(),
        0 <= i < list.len() ==> text::texts(list)[i] == list[i]@,
        text::str_texts(strs).len() == strs.len(),
        0 <= i < strs.len() ==> text::str_texts(strs)[i] == strs[i]@,
{
}

// ---------------------------------------------------------------------------
// What is stored
// ---------------------------------------------------------------------------

/// An answer shows its text, its rationale, what killed the question, and every rejected
/// option with its reason, in order.
pub proof fn answers_show_every_field(answer: Answer, i: int)
    ensures
        answer@.text == answer.text@,
        answer.rationale is None ==> answer@.rationale is None,
        answer.rationale matches Some(t) ==> answer@.rationale == Some(t@),
        answer.cauterised_by is None ==> answer@.cauterised_by is None,
        answer.cauterised_by matches Some(t) ==> answer@.cauterised_by == Some(t@),
        answer@.rejected.len() == answer.rejected@.len(),
        0 <= i < answer.rejected@.len() ==> answer@.rejected[i].option
            == answer.rejected@[i].option@ && answer@.rejected[i].why_not
            == answer.rejected@[i].why_not@,
{
}

/// A head shows every field that is stored.
pub proof fn heads_show_every_field(head: Head, i: int)
    ensures
        head@.id == head.id,
        head@.slug == head.slug@,
        head@.question == head.question@,
        head.parent is None ==> head@.parent is None,
        head.parent matches Some(t) ==> head@.parent == Some(t@),
        head@.seq == head.seq,
        head@.blocked_by.len() == head.blocked_by@.len(),
        0 <= i < head.blocked_by@.len() ==> head@.blocked_by[i] == head.blocked_by@[i]@,
        head@.status == head.status,
        head@.rev == head.rev,
        head@.created_at == head.created_at,
        head@.updated_at == head.updated_at,
        head.answer is None ==> head@.answer is None,
        head.answer matches Some(a) ==> head@.answer == Some(a@),
        head.prior is None ==> head@.prior is None,
        head.prior matches Some(a) ==> head@.prior == Some(a@),
{
}

/// A tree shows every field that is stored.
pub proof fn trees_show_every_field(tree: Tree)
    ensures
        tree@.version == tree.version,
        tree@.slug == tree.slug@,
        tree@.intent == tree.intent@,
        tree@.created_at == tree.created_at,
        tree@.heads == tree.heads@,
{
}

/// A lease shows its session, its tree and when it began.
pub proof fn leases_show_every_field(lease: Lease)
    ensures
        lease@.session_id == lease.session_id@,
        lease@.tree == lease.tree@,
        lease@.started_at == lease.started_at,
        grill::lease_view(None) is None,
        grill::lease_view(Some(lease)) == Some(lease@),
        grill::held_in(grill::Slot::Lease(lease)) == Some(lease@),
{
}

// ---------------------------------------------------------------------------
// What is asked
// ---------------------------------------------------------------------------

/// A request to sprout shows the question, the parent, the slug and every blocker.
pub proof fn requests_show_every_field(args: Sprout<'_>, i: int)
    ensures
        args@.question == args.question@,
        args.parent is None ==> args@.parent is None,
        args.parent matches Some(t) ==> args@.parent == Some(t@),
        args.slug is None ==> args@.slug is None,
        args.slug matches Some(t) ==> args@.slug == Some(t@),
        args@.blocked_by.len() == args.blocked_by@.len(),
        0 <= i < args.blocked_by@.len() ==> args@.blocked_by[i] == args.blocked_by@[i]@,
{
}

/// A payload shows every field that the gates read.
pub proof fn payloads_show_every_field(payload: Payload)
    ensures
        payload@.session_id == payload.session_id@,
        payload@.hook_event_name == payload.hook_event_name@,
        payload@.source == payload.source@,
        payload@.tool_name == payload.tool_name@,
        payload@.command == payload.command@,
        payload@.stop_hook_active == payload.stop_hook_active,
{
}

// ---------------------------------------------------------------------------
// What is shown
// ---------------------------------------------------------------------------

/// A row shows every field, and a list of rows every row, in order.
pub proof fn rows_show_every_field(row: Skeleton, list: Seq<Skeleton>, i: int)
    ensures
        row@.slug == row.slug@,
        row@.question == row.question@,
        row@.status == row.status,
        row@.state == row.state,
        row.summary is None ==> row@.summary is None,
        row.summary matches Some(t) ==> row@.summary == Some(t@),
        row.prior_summary is None ==> row@.prior_summary is None,
        row.prior_summary matches Some(t) ==> row@.prior_summary == Some(t@),
        query::rows(list).len() == list.len(),
        0 <= i < list.len() ==> query::rows(list)[i] == list[i]@,
{
}

/// A detail shows its head, what is derived from it, and every blocker and ancestor, and
/// a list of details every one, in order.
pub proof fn details_show_every_field(detail: Detail, list: Seq<Detail>, i: int)
    ensures
        detail@.head == detail.head@,
        detail@.state == detail.state,
        detail@.open_blockers.len() == detail.open_blockers@.len(),
        0 <= i < detail.open_blockers@.len() ==> detail@.open_blockers[i]
            == detail.open_blockers@[i]@,
        detail@.ancestors.len() == detail.ancestors@.len(),
        0 <= i < detail.ancestors@.len() ==> detail@.ancestors[i] == detail.ancestors@[i]@,
        query::details(list).len() == list.len(),
        0 <= i < list.len() ==> query::details(list)[i] == list[i]@,
        query::detail_view(None) is None,
        query::detail_view(Some(detail)) == Some(detail@),
{
}

/// The stops of a reading are the slugs and the depths of its visits, in order, and each
/// visit holds the head that is stored under its slug. A path that was found shows every
/// slug on it.
pub proof fn visits_show_every_field(visits: Seq<Visit>, g: Graph, path: Vec<String>, i: int)
    ensures
        reading::stops(visits).len() == visits.len(),
        0 <= i < visits.len() ==> reading::stops(visits)[i].0 == visits[i].slug@
            && reading::stops(visits)[i].1 == visits[i].depth,
        reading::reads(g, visits) && 0 <= i < visits.len() ==> g.dom().contains(visits[i].slug@)
            && visits[i].head@ == g[visits[i].slug@],
        walk::path_view(None) is None,
        walk::path_view(Some(path)) == Some(text::texts(path@)),
{
}

/// Counts show every count.
pub proof fn counts_show_every_field(counts: Counts)
    ensures
        counts@.tree == counts.tree@,
        counts@.answered == counts.answered,
        counts@.open == counts.open,
        counts@.ready == counts.ready,
        counts@.blocked == counts.blocked,
        counts@.cauterised == counts.cauterised,
        counts@.done == counts.done,
{
}

/// What a cold start is handed shows every field.
pub proof fn resumes_show_every_field(resume: Resume)
    ensures
        resume@.intent == resume.intent@,
        resume@.counts == resume.counts@,
        resume.next is None ==> resume@.next is None,
        resume.next matches Some(t) ==> resume@.next == Some(t@),
        resume@.skeleton == query::rows(resume.skeleton@),
        resume@.hydrated == query::details(resume.hydrated@),
{
}

/// A report shows every field.
pub proof fn reports_show_every_field(report: Mutation, i: int)
    ensures
        report@.tree == report.tree@,
        report@.op == report.op@,
        report.slug is None ==> report@.slug is None,
        report.slug matches Some(t) ==> report@.slug == Some(t@),
        report@.reopened.len() == report.reopened@.len(),
        0 <= i < report.reopened@.len() ==> report@.reopened[i] == report.reopened@[i]@,
        report@.counts == report.counts@,
{
}

/// A row of the list of trees shows every field.
pub proof fn listed_trees_show_every_field(row: Listed)
    ensures
        row@.tree == row.tree@,
        row@.current == row.current,
        row.counts is None ==> row@.counts is None,
        row.counts matches Some(counts) ==> row@.counts == Some(counts@),
        row.error is None ==> row@.error is None,
        row.error matches Some(t) ==> row@.error == Some(t@),
{
}

/// A candidate shows its value, its help and its place, and a list every candidate, in
/// order.
pub proof fn candidates_show_every_field(candidate: Candidate, list: Seq<Candidate>, i: int)
    ensures
        candidate@.value == candidate.value@,
        candidate.help is None ==> candidate@.help is None,
        candidate.help matches Some(t) ==> candidate@.help == Some(t@),
        candidate@.order == candidate.order,
        complete::candidates(list).len() == list.len(),
        0 <= i < list.len() ==> complete::candidates(list)[i] == list[i]@,
{
}

/// An answer to a hook shows every field.
pub proof fn responses_show_every_field(response: Response, specific: Specific)
    ensures
        response.decision is None ==> response@.decision is None,
        response.decision matches Some(t) ==> response@.decision == Some(t@),
        response.reason is None ==> response@.reason is None,
        response.reason matches Some(t) ==> response@.reason == Some(t@),
        response.system_message is None ==> response@.system_message is None,
        response.system_message matches Some(t) ==> response@.system_message == Some(t@),
        response.hook_specific_output is None ==> response@.hook_specific_output is None,
        response.hook_specific_output matches Some(s) ==> response@.hook_specific_output == Some(s@),
        specific@.hook_event_name == specific.hook_event_name@,
        specific@.additional_context == specific.additional_context@,
{
}

/// A plan for the standard input and a step after a try to lock show what they hold, and
/// the fields of a command show their flags and their values, in order.
pub proof fn plans_show_what_they_hold(
    stdin: Stdin,
    step: LockStep,
    fields: Seq<(&'static str, String)>,
    i: int,
)
    ensures
        match stdin {
            Stdin::Unused => stdin@ == StdinView::Unused,
            Stdin::Fills(at) => stdin@ == StdinView::Fills(at as nat),
            Stdin::Contested(t) => stdin@ == StdinView::Contested(t@),
        },
        match step {
            LockStep::Proceed => step@ == LockStepView::Proceed,
            LockStep::Retry => step@ == LockStepView::Retry,
            LockStep::GiveUp(e) => step@ == LockStepView::GiveUp(e@),
        },
        cli::fields_of(fields).len() == fields.len(),
        0 <= i < fields.len() ==> cli::fields_of(fields)[i] == (fields[i].0@, fields[i].1@),
{
}

/// What a look shows is shown whole.
pub proof fn outputs_show_what_they_hold(output: Output)
    ensures
        match output {
            Output::Counts(counts) => output@ == OutputView::Counts(counts@),
            Output::Rows(rows) => output@ == OutputView::Rows(query::rows(rows@)),
            Output::Detail(detail) => output@ == OutputView::Detail(
                query::detail_view(detail),
            ),
            Output::Resume(resume) => output@ == OutputView::Resume(resume@),
            Output::Drawing(t) => output@ == OutputView::Drawing(t@),
        },
{
}

/// A failure shows its kind and everything that it names.
pub proof fn errors_show_every_field(e: Error)
    ensures
        match e {
            Error::Io { path, source } => e@ == (ErrorView::Io { path: path@, source: source@ }),
            Error::Json { path, source } => e@ == (ErrorView::Json { path: path@, source: source@ }),
            Error::NoStore { start } => e@ == (ErrorView::NoStore { start: start@ }),
            Error::HeadUnset => e@ == ErrorView::HeadUnset,
            Error::UnknownTree { slug } => e@ == (ErrorView::UnknownTree { slug: slug@ }),
            Error::TreeExists { slug } => e@ == (ErrorView::TreeExists { slug: slug@ }),
            Error::UnsupportedVersion { path, found, expected } => e@ == (
            ErrorView::UnsupportedVersion { path: path@, found, expected }),
            Error::MalformedSlug { slug } => e@ == (ErrorView::MalformedSlug { slug: slug@ }),
            Error::DuplicateSlug { slug } => e@ == (ErrorView::DuplicateSlug { slug: slug@ }),
            Error::LockTimeout { path } => e@ == (ErrorView::LockTimeout { path: path@ }),
            Error::UnknownHead { slug } => e@ == (ErrorView::UnknownHead { slug: slug@ }),
            Error::UnknownParent { slug, parent } => e@ == (ErrorView::UnknownParent {
                slug: slug@,
                parent: parent@,
            }),
            Error::UnknownBlocker { slug, blocked_by } => e@ == (ErrorView::UnknownBlocker {
                slug: slug@,
                blocked_by: blocked_by@,
            }),
            Error::BlockCycle { slug, blocked_by, path } => e@ == (ErrorView::BlockCycle {
                slug: slug@,
                blocked_by: blocked_by@,
                path: text::texts(path@),
            }),
            Error::ParentCycle { slug, parent, path } => e@ == (ErrorView::ParentCycle {
                slug: slug@,
                parent: parent@,
                path: text::texts(path@),
            }),
            Error::ReopenCycle { slug, edge, other, path } => e@ == (ErrorView::ReopenCycle {
                slug: slug@,
                edge,
                other: other@,
                path: text::texts(path@),
            }),
            Error::BlockedCut { slug, blockers } => e@ == (ErrorView::BlockedCut {
                slug: slug@,
                blockers: text::texts(blockers@),
            }),
            Error::IllegalTransition { slug, from, to } => e@ == (ErrorView::IllegalTransition {
                slug: slug@,
                from,
                to,
            }),
            Error::CauteriseByUnanswered { slug, by } => e@ == (ErrorView::CauteriseByUnanswered {
                slug: slug@,
                by: by@,
            }),
            Error::SelfCauterise { slug } => e@ == (ErrorView::SelfCauterise { slug: slug@ }),
        },
{
}

/// A JSON value shows its kind and what it holds: every item of a list and every field
/// of an object, in order.
pub proof fn values_show_what_they_hold(
    b: bool,
    t: String,
    items: Vec<Json>,
    fields: Vec<(String, Json)>,
    i: int,
)
    ensures
        Json::Null@ == JsonView::Null,
        Json::Bool(b)@ == JsonView::Bool(b),
        Json::Number@ == JsonView::Number,
        Json::Text(t)@ == JsonView::Text(t@),
        Json::List(items)@ == JsonView::List(json::list_view(items@)),
        json::list_view(items@).len() == items@.len(),
        0 <= i < items@.len() ==> json::list_view(items@)[i] == items@[i]@,
        Json::Object(fields)@ == JsonView::Object(json::fields_view(fields@)),
        json::fields_view(fields@).len() == fields@.len(),
        0 <= i < fields@.len() ==> json::fields_view(fields@)[i] == (fields@[i].0@, fields@[i].1@),
{
    lemma_items(items@, i);
    lemma_fields(fields@, i);
}

proof fn lemma_items(items: Seq<Json>, i: int)
    ensures
        json::list_view(items).len() == items.len(),
        0 <= i < items.len() ==> json::list_view(items)[i] == items[i]@,
    decreases items.len(),
{
    if items.len() > 0 {
        lemma_items(items.drop_last(), i);
    }
}

proof fn lemma_fields(fields: Seq<(String, Json)>, i: int)
    ensures
        json::fields_view(fields).len() == fields.len(),
        0 <= i < fields.len() ==> json::fields_view(fields)[i] == (fields[i].0@, fields[i].1@),
    decreases fields.len(),
{
    if fields.len() > 0 {
        lemma_fields(fields.drop_last(), i);
    }
}

} // verus!

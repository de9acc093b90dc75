//! What the library can refuse, one variant per reason, each naming the slugs
//! at fault.

use vstd::prelude::*;

use crate::model::Status;
use crate::text::{self, Text};

verus! {

/// The two kinds of edge that the reopening cascade runs over.
#[derive(Debug, Clone, Copy, PartialEq, Eq, Structural)]
pub enum Edge {
    Parent,
    BlockedBy,
}

#[derive(Debug)]
#[allow(inconsistent_fields)]
pub enum Error {
    Io { path: String, source: String },
    Json { path: String, source: String },
    NoStore { start: String },
    HeadUnset,
    UnknownTree { slug: String },
    TreeExists { slug: String },
    UnsupportedVersion { path: String, found: u32, expected: u32 },
    MalformedSlug { slug: String },
    DuplicateSlug { slug: String },
    LockTimeout { path: String },
    UnknownHead { slug: String },
    UnknownParent { slug: String, parent: String },
    UnknownBlocker { slug: String, blocked_by: String },
    BlockCycle { slug: String, blocked_by: String, path: Vec<String> },
    ParentCycle { slug: String, parent: String, path: Vec<String> },
    ReopenCycle { slug: String, edge: Edge, other: String, path: Vec<String> },
    BlockedCut { slug: String, blockers: Vec<String> },
    IllegalTransition { slug: String, from: Status, to: Status },
    CauteriseByUnanswered { slug: String, by: String },
    SelfCauterise { slug: String },
}

#[allow(inconsistent_fields)]
pub enum ErrorView {
    Io { path: Text, source: Text },
    Json { path: Text, source: Text },
    NoStore { start: Text },
    HeadUnset,
    UnknownTree { slug: Text },
    TreeExists { slug: Text },
    UnsupportedVersion { path: Text, found: u32, expected: u32 },
    MalformedSlug { slug: Text },
    DuplicateSlug { slug: Text },
    LockTimeout { path: Text },
    UnknownHead { slug: Text },
    UnknownParent { slug: Text, parent: Text },
    UnknownBlocker { slug: Text, blocked_by: Text },
    BlockCycle { slug: Text, blocked_by: Text, path: Seq<Text> },
    ParentCycle { slug: Text, parent: Text, path: Seq<Text> },
    ReopenCycle { slug: Text, edge: Edge, other: Text, path: Seq<Text> },
    BlockedCut { slug: Text, blockers: Seq<Text> },
    IllegalTransition { slug: Text, from: Status, to: Status },
    CauteriseByUnanswered { slug: Text, by: Text },
    SelfCauterise { slug: Text },
}

impl View for Error {
    type V = ErrorView;

    open spec fn view(&self) -> ErrorView {
        match *self {
            Error::Io { path, source } => ErrorView::Io { path: path@, source: source@ },
            Error::Json { path, source } => ErrorView::Json { path: path@, source: source@ },
            Error::NoStore { start } => ErrorView::NoStore { start: start@ },
            Error::HeadUnset => ErrorView::HeadUnset,
            Error::UnknownTree { slug } => ErrorView::UnknownTree { slug: slug@ },
            Error::TreeExists { slug } => ErrorView::TreeExists { slug: slug@ },
            Error::UnsupportedVersion { path, found, expected } => ErrorView::UnsupportedVersion {
                path: path@,
                found,
                expected,
            },
            Error::MalformedSlug { slug } => ErrorView::MalformedSlug { slug: slug@ },
            Error::DuplicateSlug { slug } => ErrorView::DuplicateSlug { slug: slug@ },
            Error::LockTimeout { path } => ErrorView::LockTimeout { path: path@ },
            Error::UnknownHead { slug } => ErrorView::UnknownHead { slug: slug@ },
            Error::UnknownParent { slug, parent } => ErrorView::UnknownParent {
                slug: slug@,
                parent: parent@,
            },
            Error::UnknownBlocker { slug, blocked_by } => ErrorView::UnknownBlocker {
                slug: slug@,
                blocked_by: blocked_by@,
            },
            Error::BlockCycle { slug, blocked_by, path } => ErrorView::BlockCycle {
                slug: slug@,
                blocked_by: blocked_by@,
                path: text::texts(path@),
            },
            Error::ParentCycle { slug, parent, path } => ErrorView::ParentCycle {
                slug: slug@,
                parent: parent@,
                path: text::texts(path@),
            },
            Error::ReopenCycle { slug, edge, other, path } => ErrorView::ReopenCycle {
                slug: slug@,
                edge,
                other: other@,
                path: text::texts(path@),
            },
            Error::BlockedCut { slug, blockers } => ErrorView::BlockedCut {
                slug: slug@,
                blockers: text::texts(blockers@),
            },
            Error::IllegalTransition { slug, from, to } => ErrorView::IllegalTransition {
                slug: slug@,
                from,
                to,
            },
            Error::CauteriseByUnanswered { slug, by } => ErrorView::CauteriseByUnanswered {
                slug: slug@,
                by: by@,
            },
            Error::SelfCauterise { slug } => ErrorView::SelfCauterise { slug: slug@ },
        }
    }
}

// ---------------------------------------------------------------------------
// Messages
// ---------------------------------------------------------------------------

pub open spec fn edge_name(edge: Edge) -> Text {
    match edge {
        Edge::Parent => "parent"@,
        Edge::BlockedBy => "blocked_by"@,
    }
}

pub open spec fn status_name(status: Status) -> Text {
    match status {
        Status::Open => "open"@,
        Status::Answered => "answered"@,
    }
}

impl Edge {
    pub fn name(self) -> (r: &'static str)
        ensures
            r@ == edge_name(self),
    {
        match self {
            Edge::Parent => "parent",
            Edge::BlockedBy => "blocked_by",
        }
    }
}

fn name_of(status: Status) -> (r: &'static str)
    ensures
        r@ == status_name(status),
{
    match status {
        Status::Open => "open",
        Status::Answered => "answered",
    }
}

/// What a message is put together of.
pub open spec fn parts_of(e: ErrorView) -> Seq<Text> {
    match e {
        ErrorView::Io { path, source } => seq![
            path,
            ": "@,
            source,
        ],
        ErrorView::Json { path, source } => seq![
            path,
            ": malformed JSON: "@,
            source,
        ],
        ErrorView::NoStore { start } => seq![
            "no .hydra directory in "@,
            start,
            " or any parent"@,
        ],
        ErrorView::HeadUnset => seq![
            "no active tree: .hydra/HEAD is missing"@,
        ],
        ErrorView::UnknownTree { slug } => seq![
            "unknown tree '"@,
            slug,
            "'"@,
        ],
        ErrorView::TreeExists { slug } => seq![
            "tree '"@,
            slug,
            "' already exists"@,
        ],
        ErrorView::UnsupportedVersion { path, found, expected } => seq![
            path,
            ": tree format version "@,
            text::decimal(found as nat),
            ", expected "@,
            text::decimal(expected as nat),
        ],
        ErrorView::MalformedSlug { slug } => seq![
            "malformed slug '"@,
            slug,
            "': expected ^[a-z0-9][a-z0-9-]*$"@,
        ],
        ErrorView::DuplicateSlug { slug } => seq![
            "duplicate slug '"@,
            slug,
            "'"@,
        ],
        ErrorView::LockTimeout { path } => seq![
            "timed out waiting for the lock on "@,
            path,
        ],
        ErrorView::UnknownHead { slug } => seq![
            "unknown head '"@,
            slug,
            "'"@,
        ],
        ErrorView::UnknownParent { slug, parent } => seq![
            "'"@,
            slug,
            "' cannot go under '"@,
            parent,
            "': no such head"@,
        ],
        ErrorView::UnknownBlocker { slug, blocked_by } => seq![
            "'"@,
            slug,
            "' cannot be blocked by '"@,
            blocked_by,
            "': no such head"@,
        ],
        ErrorView::BlockCycle { slug, blocked_by, path } => seq![
            "blocking '"@,
            slug,
            "' by '"@,
            blocked_by,
            "' would close a cycle: "@,
            text::joined(path, " -> "@),
        ],
        ErrorView::ParentCycle { slug, parent, path } => seq![
            "moving '"@,
            slug,
            "' under '"@,
            parent,
            "' would make it its own ancestor: "@,
            text::joined(path, " -> "@),
        ],
        ErrorView::ReopenCycle { slug, edge, other, path } => seq![
            "the "@,
            edge_name(edge),
            " edge from '"@,
            slug,
            "' to '"@,
            other,
            "' would close a cycle in the cascade: "@,
            text::joined(path, " -> "@),
        ],
        ErrorView::BlockedCut { slug, blockers } => seq![
            "'"@,
            slug,
            "' is held back by unanswered heads: "@,
            text::joined(blockers, ", "@),
        ],
        ErrorView::IllegalTransition { slug, from, to } => seq![
            "'"@,
            slug,
            "' cannot go from "@,
            status_name(from),
            " to "@,
            status_name(to),
        ],
        ErrorView::CauteriseByUnanswered { slug, by } => seq![
            "'"@,
            slug,
            "' cannot be cauterised by '"@,
            by,
            "', which is not answered"@,
        ],
        ErrorView::SelfCauterise { slug } => seq![
            "'"@,
            slug,
            "' cannot be cauterised by itself"@,
        ],
    }
}

pub open spec fn message_of(e: ErrorView) -> Text {
    text::concat(parts_of(e))
}

impl Error {
    /// What went wrong, in a line.
    pub fn message(&self) -> (r: String)
        ensures
            r@ == message_of(self@),
    {
        let ghost want = parts_of(self@);
        match self {
            Error::Io { path, source } => {
                let parts = vec![path.as_str(), ": ", source.as_str()];
                assert(text::str_texts(parts@) =~= want);
                text::glue(&parts)
            },
            Error::Json { path, source } => {
                let parts = vec![path.as_str(), ": malformed JSON: ", source.as_str()];
                assert(text::str_texts(parts@) =~= want);
                text::glue(&parts)
            },
            Error::NoStore { start } => {
                let parts = vec!["no .hydra directory in ", start.as_str(), " or any parent"];
                assert(text::str_texts(parts@) =~= want);
                text::glue(&parts)
            },
            Error::HeadUnset => {
                let parts = vec!["no active tree: .hydra/HEAD is missing"];
                assert(text::str_texts(parts@) =~= want);
                text::glue(&parts)
            },
            Error::UnknownTree { slug } => {
                let parts = vec!["unknown tree '", slug.as_str(), "'"];
                assert(text::str_texts(parts@) =~= want);
                text::glue(&parts)
            },
            Error::TreeExists { slug } => {
                let parts = vec!["tree '", slug.as_str(), "' already exists"];
                assert(text::str_texts(parts@) =~= want);
                text::glue(&parts)
            },
            Error::UnsupportedVersion { path, found, expected } => {
                let found_text = text::decimal_of(*found as u64);
                let expected_text = text::decimal_of(*expected as u64);
                let parts = vec![path.as_str(), ": tree format version ", found_text.as_str(), ", expected ", expected_text.as_str()];
                assert(text::str_texts(parts@) =~= want);
                text::glue(&parts)
            },
            Error::MalformedSlug { slug } => {
                let parts = vec!["malformed slug '", slug.as_str(), "': expected ^[a-z0-9][a-z0-9-]*$"];
                assert(text::str_texts(parts@) =~= want);
                text::glue(&parts)
            },
            Error::DuplicateSlug { slug } => {
                let parts = vec!["duplicate slug '", slug.as_str(), "'"];
                assert(text::str_texts(parts@) =~= want);
                text::glue(&parts)
            },
            Error::LockTimeout { path } => {
                let parts = vec!["timed out waiting for the lock on ", path.as_str()];
                assert(text::str_texts(parts@) =~= want);
                text::glue(&parts)
            },
            Error::UnknownHead { slug } => {
                let parts = vec!["unknown head '", slug.as_str(), "'"];
                assert(text::str_texts(parts@) =~= want);
                text::glue(&parts)
            },
            Error::UnknownParent { slug, parent } => {
                let parts = vec!["'", slug.as_str(), "' cannot go under '", parent.as_str(), "': no such head"];
                assert(text::str_texts(parts@) =~= want);
                text::glue(&parts)
            },
            Error::UnknownBlocker { slug, blocked_by } => {
                let parts = vec!["'", slug.as_str(), "' cannot be blocked by '", blocked_by.as_str(), "': no such head"];
                assert(text::str_texts(parts@) =~= want);
                text::glue(&parts)
            },
            Error::BlockCycle { slug, blocked_by, path } => {
                let walk = text::join(path, " -> ");
                let parts = vec!["blocking '", slug.as_str(), "' by '", blocked_by.as_str(), "' would close a cycle: ", walk.as_str()];
                assert(text::str_texts(parts@) =~= want);
                text::glue(&parts)
            },
            Error::ParentCycle { slug, parent, path } => {
                let walk = text::join(path, " -> ");
                let parts = vec!["moving '", slug.as_str(), "' under '", parent.as_str(), "' would make it its own ancestor: ", walk.as_str()];
                assert(text::str_texts(parts@) =~= want);
                text::glue(&parts)
            },
            Error::ReopenCycle { slug, edge, other, path } => {
                let walk = text::join(path, " -> ");
                let parts = vec!["the ", edge.name(), " edge from '", slug.as_str(), "' to '", other.as_str(), "' would close a cycle in the cascade: ", walk.as_str()];
                assert(text::str_texts(parts@) =~= want);
                text::glue(&parts)
            },
            Error::BlockedCut { slug, blockers } => {
                let list = text::join(blockers, ", ");
                let parts = vec!["'", slug.as_str(), "' is held back by unanswered heads: ", list.as_str()];
                assert(text::str_texts(parts@) =~= want);
                text::glue(&parts)
            },
            Error::IllegalTransition { slug, from, to } => {
                let parts = vec!["'", slug.as_str(), "' cannot go from ", name_of(*from), " to ", name_of(*to)];
                assert(text::str_texts(parts@) =~= want);
                text::glue(&parts)
            },
            Error::CauteriseByUnanswered { slug, by } => {
                let parts = vec!["'", slug.as_str(), "' cannot be cauterised by '", by.as_str(), "', which is not answered"];
                assert(text::str_texts(parts@) =~= want);
                text::glue(&parts)
            },
            Error::SelfCauterise { slug } => {
                let parts = vec!["'", slug.as_str(), "' cannot be cauterised by itself"];
                assert(text::str_texts(parts@) =~= want);
                text::glue(&parts)
            },
        }
    }
}

/// The slugs that a refusal is about: every one that the request named, and every
/// one on the cycle that it would close.
pub open spec fn slugs_at_fault(e: ErrorView) -> Seq<Text> {
    match e {
        ErrorView::UnknownTree { slug } => seq![slug],
        ErrorView::TreeExists { slug } => seq![slug],
        ErrorView::MalformedSlug { slug } => seq![slug],
        ErrorView::DuplicateSlug { slug } => seq![slug],
        ErrorView::UnknownHead { slug } => seq![slug],
        ErrorView::UnknownParent { slug, parent } => seq![slug, parent],
        ErrorView::UnknownBlocker { slug, blocked_by } => seq![slug, blocked_by],
        ErrorView::BlockCycle { slug, blocked_by, path } => seq![slug, blocked_by] + path,
        ErrorView::ParentCycle { slug, parent, path } => seq![slug, parent] + path,
        ErrorView::ReopenCycle { slug, edge, other, path } => seq![slug, other] + path,
        ErrorView::BlockedCut { slug, blockers } => seq![slug] + blockers,
        ErrorView::IllegalTransition { slug, from, to } => seq![slug],
        ErrorView::CauteriseByUnanswered { slug, by } => seq![slug, by],
        ErrorView::SelfCauterise { slug } => seq![slug],
        _ => Seq::empty(),
    }
}

/// Some part of the message is the slug, or a list that holds it.
spec fn names(e: ErrorView, k: int, slug: Text) -> bool {
    &&& 0 <= k < parts_of(e).len()
    &&& text::mentions(parts_of(e)[k], slug)
}

proof fn lemma_whole(t: Text)
    ensures
        text::mentions(t, t),
{
    assert(t.subrange(0, 0int + t.len()) =~= t);
}

/// Every refusal names the slugs at fault.
pub proof fn refusals_name_their_slugs(e: ErrorView, i: int)
    requires
        0 <= i < slugs_at_fault(e).len(),
    ensures
        text::mentions(message_of(e), slugs_at_fault(e)[i]),
{
    let slug = slugs_at_fault(e)[i];
    let parts = parts_of(e);
    lemma_whole(slug);
    match e {
        ErrorView::BlockCycle { path, .. } => if i >= 2 {
            text::joined_mentions_its_parts(path, " -> "@, i - 2);
            assert(names(e, 5, slug));
        } else if i == 0 {
            assert(names(e, 1, slug));
        } else {
            assert(names(e, 3, slug));
        },
        ErrorView::ParentCycle { path, .. } => if i >= 2 {
            text::joined_mentions_its_parts(path, " -> "@, i - 2);
            assert(names(e, 5, slug));
        } else if i == 0 {
            assert(names(e, 1, slug));
        } else {
            assert(names(e, 3, slug));
        },
        ErrorView::ReopenCycle { path, .. } => if i >= 2 {
            text::joined_mentions_its_parts(path, " -> "@, i - 2);
            assert(names(e, 7, slug));
        } else if i == 0 {
            assert(names(e, 3, slug));
        } else {
            assert(names(e, 5, slug));
        },
        ErrorView::BlockedCut { blockers, .. } => if i >= 1 {
            text::joined_mentions_its_parts(blockers, ", "@, i - 1);
            assert(names(e, 3, slug));
        } else {
            assert(names(e, 1, slug));
        },
        _ => if i == 0 {
            assert(names(e, 1, slug));
        } else {
            assert(names(e, 3, slug));
        },
    }
    let k = choose|k: int| names(e, k, slug);
    text::concat_mentions_its_parts(parts, k);
    text::mentions_what_a_part_mentions(message_of(e), parts[k], slug);
}

// ---------------------------------------------------------------------------
// Exit codes
// ---------------------------------------------------------------------------

/// Done. For a look at the counts, also that no head is open.
pub const OK: i32 = 0;

/// Reading, writing, a damaged file or a lock that did not come free.
pub const FAILED: i32 = 1;

/// A mistake on the command line.
pub const USAGE: i32 = 2;

/// A slug was refused: by a rule, or because there is no such head.
pub const REJECTED: i32 = 3;

/// Heads are open. A signal, not a failure.
pub const OPEN: i32 = 4;

/// No store, no active tree, no such tree, one that exists already, or one that a
/// later version wrote. Nothing was addressed, so nothing was tried.
pub const NO_TREE: i32 = 5;

pub open spec fn code_of(e: ErrorView) -> i32 {
    match e {
        ErrorView::NoStore { .. } => NO_TREE,
        ErrorView::HeadUnset => NO_TREE,
        ErrorView::UnknownTree { .. } => NO_TREE,
        ErrorView::TreeExists { .. } => NO_TREE,
        ErrorView::UnsupportedVersion { .. } => NO_TREE,
        ErrorView::Io { .. } => FAILED,
        ErrorView::Json { .. } => FAILED,
        ErrorView::LockTimeout { .. } => FAILED,
        _ => REJECTED,
    }
}

/// No failure passes for a success, for a mistake on the command line or for open
/// heads.
pub proof fn failures_have_codes_of_their_own(e: ErrorView)
    ensures
        code_of(e) == FAILED || code_of(e) == REJECTED || code_of(e) == NO_TREE,
        code_of(e) != OK && code_of(e) != USAGE && code_of(e) != OPEN,
{
}

/// The exit code that tells a caller what kind of failure this is.
pub fn code(err: &Error) -> (r: i32)
    ensures
        r == code_of(err@),
{
    match err {
        Error::NoStore { .. }
        | Error::HeadUnset
        | Error::UnknownTree { .. }
        | Error::TreeExists { .. }
        | Error::UnsupportedVersion { .. } => NO_TREE,
        Error::MalformedSlug { .. }
        | Error::DuplicateSlug { .. }
        | Error::UnknownHead { .. }
        | Error::UnknownParent { .. }
        | Error::UnknownBlocker { .. }
        | Error::BlockCycle { .. }
        | Error::ParentCycle { .. }
        | Error::ReopenCycle { .. }
        | Error::BlockedCut { .. }
        | Error::IllegalTransition { .. }
        | Error::CauteriseByUnanswered { .. }
        | Error::SelfCauterise { .. } => REJECTED,
        Error::Io { .. } | Error::Json { .. } | Error::LockTimeout { .. } => FAILED,
    }
}

} // verus!

//! The session lease: which session is holding the interview, on which tree, and
//! since when.
//!
//! A lease is never swept up. One that a session left behind names an identifier
//! that no later session has, so it matches nothing.

use vstd::prelude::*;

use crate::model::{self, Timestamp};
use crate::text::{self, Text};

verus! {

/// The environment variable that holds the identifier of the session.
pub const SESSION_ENV: &'static str = "CLAUDE_CODE_SESSION_ID";

#[derive(Debug, PartialEq, Eq)]
pub struct Lease {
    pub session_id: String,
    pub tree: String,
    pub started_at: Timestamp,
}

pub struct LeaseView {
    pub session_id: Text,
    pub tree: Text,
    pub started_at: Timestamp,
}

impl View for Lease {
    type V = LeaseView;

    open spec fn view(&self) -> LeaseView {
        LeaseView {
            session_id: self.session_id@,
            tree: self.tree@,
            started_at: self.started_at,
        }
    }
}

impl Clone for Lease {
    fn clone(&self) -> (r: Self)
        ensures
            r@ == self@,
    {
        Lease {
            session_id: self.session_id.clone(),
            tree: self.tree.clone(),
            started_at: self.started_at,
        }
    }
}

impl LeaseView {
    /// The lease belongs to this session. An empty identifier matches nothing: a
    /// message that carries none is no evidence of anything.
    pub open spec fn held_by(self, session_id: Text) -> bool {
        session_id.len() > 0 && self.session_id == session_id
    }
}

impl Lease {
    /// Whether the lease belongs to this session.
    pub fn holds(&self, session_id: &str) -> (r: bool)
        ensures
            r == self@.held_by(session_id@),
    {
        session_id.unicode_len() > 0 && text::same(self.session_id.as_str(), session_id)
    }
}

pub open spec fn lease_view(lease: Option<Lease>) -> Option<LeaseView> {
    match lease {
        Some(lease) => Some(lease@),
        None => None,
    }
}

/// What was found at the path of the lease.
#[derive(Debug)]
pub enum Slot {
    Missing,
    Unreadable,
    Malformed,
    Lease(Lease),
}

/// The lease that there is to act on. A file that cannot be read, or is no lease,
/// can match no session, so it counts as none.
pub open spec fn held_in(slot: Slot) -> Option<LeaseView> {
    match slot {
        Slot::Lease(lease) => Some(lease@),
        _ => None,
    }
}

/// The lease, or `None` where there is none to act on.
pub fn read(slot: Slot) -> (r: Option<Lease>)
    ensures
        lease_view(r) == held_in(slot),
{
    match slot {
        Slot::Lease(lease) => Some(lease),
        _ => None,
    }
}

/// The lease that a session takes: it displaces whatever is there, and keeps the
/// time at which it began if it was its own.
pub open spec fn taken(
    held: Option<LeaseView>,
    session_id: Text,
    tree: Text,
    now: Timestamp,
) -> LeaseView {
    LeaseView {
        session_id,
        tree,
        started_at: match held {
            Some(lease) if lease.held_by(session_id) => lease.started_at,
            _ => now,
        },
    }
}

/// Takes the lease on `tree` at the given time.
pub fn start_at(held: &Option<Lease>, session_id: &str, tree: &str, now: Timestamp) -> (r: Lease)
    ensures
        r@ == taken(lease_view(*held), session_id@, tree@, now),
{
    let started_at = match held {
        Some(lease) => if lease.holds(session_id) {
            lease.started_at
        } else {
            now
        },
        None => now,
    };
    Lease { session_id: text::owned(session_id), tree: text::owned(tree), started_at }
}

/// Takes the lease on `tree` now.
pub fn start(held: &Option<Lease>, session_id: &str, tree: &str) -> (r: Lease)
    ensures
        exists|now: Timestamp|
            now.is_whole() && now.in_range() && #[trigger] taken(
                lease_view(*held),
                session_id@,
                tree@,
                now,
            ) == r@,
{
    let now = model::now();
    let r = start_at(held, session_id, tree, now);
    assert(taken(lease_view(*held), session_id@, tree@, now) == r@);
    r
}

/// A lease that a session would displace: one that is there and is not its own.
pub open spec fn displaced_by(held: Option<LeaseView>, session_id: Text) -> Option<LeaseView> {
    match held {
        Some(lease) if !lease.held_by(session_id) => held,
        _ => None,
    }
}

pub open spec fn displacement_of(lease: LeaseView) -> Text {
    text::concat(
        seq![
            "replacing a lease left by session "@,
            lease.session_id,
            " on '"@,
            lease.tree,
            "'"@,
        ],
    )
}

/// What to say of a lease that this session displaces. It does not speak of a
/// competitor: the usual one was left behind by a session that ended.
pub fn displacement(held: &Option<Lease>, session_id: &str) -> (r: Option<String>)
    ensures
        text::optional(r) == (match displaced_by(lease_view(*held), session_id@) {
            Some(lease) => Some(displacement_of(lease)),
            None => None,
        }),
{
    match held {
        Some(lease) => if lease.holds(session_id) {
            None
        } else {
            let parts = vec![
                "replacing a lease left by session ",
                lease.session_id.as_str(),
                " on '",
                lease.tree.as_str(),
                "'",
            ];
            assert(text::str_texts(parts@) =~= seq![
                "replacing a lease left by session "@,
                lease@.session_id,
                " on '"@,
                lease@.tree,
                "'"@,
            ]);
            Some(text::glue(&parts))
        },
        None => None,
    }
}

/// How the removal of the lease file went.
#[derive(Debug, Clone, Copy, PartialEq, Eq, Structural)]
pub enum Removal {
    Removed,
    NotThere,
}

/// What was released: the lease that was there, if its file was. A file that was
/// no lease is removed all the same and counts as nothing.
pub fn stop(held: Option<Lease>, removal: Removal) -> (r: Option<Lease>)
    ensures
        r == (if removal == Removal::Removed {
            held
        } else {
            None
        }),
{
    match removal {
        Removal::Removed => held,
        Removal::NotThere => None,
    }
}

/// A lease holds for the session that took it, and for no other.
pub proof fn lease_holds_for_its_session_alone(
    held: Option<LeaseView>,
    session_id: Text,
    tree: Text,
    now: Timestamp,
    other: Text,
)
    requires
        session_id.len() > 0,
    ensures
        taken(held, session_id, tree, now).held_by(session_id),
        other != session_id ==> !taken(held, session_id, tree, now).held_by(other),
{
}

/// To take a lease again does not change when it began, whichever tree it is on.
pub proof fn taking_again_keeps_the_start(
    held: Option<LeaseView>,
    session_id: Text,
    first: Text,
    second: Text,
    now: Timestamp,
    later: Timestamp,
)
    requires
        session_id.len() > 0,
    ensures
        taken(Some(taken(held, session_id, first, now)), session_id, second, later).started_at
            == taken(held, session_id, first, now).started_at,
{
}

/// A lease that was taken is read back as it was taken, when its file is found to
/// hold it: it names its session and its tree, and began when the session's own
/// lease did, if that was there, or else now. What another session left there, or
/// cannot be read, does not stand in its way.
pub proof fn taken_lease_is_read_back(
    before: Slot,
    session_id: Text,
    tree: Text,
    now: Timestamp,
    lease: Lease,
)
    requires
        lease@ == taken(held_in(before), session_id, tree, now),
    ensures
        held_in(Slot::Lease(lease)) == Some(lease@),
        lease@.session_id == session_id,
        lease@.tree == tree,
        lease@.started_at == (match held_in(before) {
            Some(held) => if session_id.len() > 0 && held.session_id == session_id {
                held.started_at
            } else {
                now
            },
            None => now,
        }),
{
}

// ---------------------------------------------------------------------------
// The identifier
// ---------------------------------------------------------------------------

/// The identifier of the session: the one given, or else that of the environment,
/// without white space at either end.
pub open spec fn session_of(given: Option<Text>, from_env: Option<Text>) -> Text {
    match given {
        Some(id) => text::trimmed(id),
        None => match from_env {
            Some(id) => text::trimmed(id),
            None => Seq::empty(),
        },
    }
}

/// What to tell the user where no session is named.
pub open spec fn no_session() -> Text {
    text::concat(
        seq![
            "no session to grill: $"@,
            SESSION_ENV@,
            " is unset or empty, so pass --session-id"@,
        ],
    )
}

/// The identifier of the session, or what to tell the user where there is none. A
/// lease with an identifier that no hook will send would silently do nothing.
pub fn resolve_session_id(given: Option<&str>, from_env: Option<&str>) -> (r: Result<
    String,
    String,
>)
    ensures
        match r {
            Ok(id) => id@ == session_of(text::optional_str(given), text::optional_str(from_env))
                && id@.len() > 0,
            Err(message) => {
                &&& session_of(text::optional_str(given), text::optional_str(from_env)).len() == 0
                &&& message@ == no_session()
            },
        },
{
    let id = match given {
        Some(id) => text::owned(text::trim(id)),
        None => match from_env {
            Some(id) => text::owned(text::trim(id)),
            None => String::new(),
        },
    };
    if id.as_str().unicode_len() > 0 {
        Ok(id)
    } else {
        let parts = vec![
            "no session to grill: $",
            SESSION_ENV,
            " is unset or empty, so pass --session-id",
        ];
        assert(text::str_texts(parts@) =~= seq![
            "no session to grill: $"@,
            SESSION_ENV@,
            " is unset or empty, so pass --session-id"@,
        ]);
        Err(text::glue(&parts))
    }
}

// ---------------------------------------------------------------------------
// Taking the lease
// ---------------------------------------------------------------------------

/// A lease to be written, and what to say of the one that it displaces.
#[derive(Debug)]
pub struct Taking {
    pub lease: Lease,
    pub note: Option<String>,
}

/// Takes the lease on `tree` for the session that the command line or the
/// environment names, or says what to tell the user where neither does.
pub fn take(
    held: &Option<Lease>,
    given: Option<&str>,
    from_env: Option<&str>,
    tree: &str,
) -> (r: Result<Taking, String>)
    ensures
        ({
            let id = session_of(text::optional_str(given), text::optional_str(from_env));
            match r {
                Ok(taking) => {
                    &&& id.len() > 0
                    &&& exists|now: Timestamp|
                        now.is_whole() && now.in_range() && #[trigger] taken(
                            lease_view(*held),
                            id,
                            tree@,
                            now,
                        ) == taking.lease@
                    &&& text::optional(taking.note) == (match displaced_by(lease_view(*held), id) {
                        Some(lease) => Some(displacement_of(lease)),
                        None => None,
                    })
                },
                Err(message) => id.len() == 0 && message@ == no_session(),
            }
        }),
{
    match resolve_session_id(given, from_env) {
        Ok(id) => Ok(
            Taking {
                lease: start(held, id.as_str(), tree),
                note: displacement(held, id.as_str()),
            },
        ),
        Err(message) => Err(message),
    }
}

} // verus!

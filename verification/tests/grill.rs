use hydra::grill::{
    displacement, read, resolve_session_id, start, start_at, stop, take, Lease, Removal, Slot,
};
use hydra::model::{now, Timestamp};

/// The one place where a lease can be.
struct Place(Option<Lease>);

impl Place {
    fn read(&self) -> Option<Lease> {
        read(match &self.0 {
            Some(lease) => Slot::Lease(lease.clone()),
            None => Slot::Missing,
        })
    }

    fn start(&mut self, session_id: &str, tree: &str) -> Lease {
        let lease = start(&self.read(), session_id, tree);
        self.0 = Some(lease.clone());
        lease
    }

    fn stop(&mut self) -> Option<Lease> {
        let held = self.read();
        let removal = match self.0.take() {
            Some(_) => Removal::Removed,
            None => Removal::NotThere,
        };
        stop(held, removal)
    }
}

#[test]
fn a_lease_holds_only_for_its_own_session() {
    let lease = Lease {
        session_id: "abc123".to_string(),
        tree: "hydra-design".to_string(),
        started_at: now(),
    };
    assert!(lease.holds("abc123"));
    assert!(!lease.holds("def456"));
    assert!(
        !lease.holds(""),
        "a payload with no session_id is not evidence of anything"
    );

    let anonymous = Lease {
        session_id: String::new(),
        ..lease
    };
    assert!(
        !anonymous.holds(""),
        "and neither is a lease with no session_id"
    );
}

#[test]
fn a_stale_lease_needs_no_cleanup_to_be_inert() {
    let mut place = Place(None);
    place.start("crashed-session", "hydra-design");
    assert!(!place.read().unwrap().holds("a-new-session"));
}

#[test]
fn an_absent_or_corrupt_lease_reads_as_no_lease() {
    assert_eq!(read(Slot::Missing), None, "absent");
    assert_eq!(read(Slot::Unreadable), None, "not to be read");
    assert_eq!(read(Slot::Malformed), None, "corrupt");
    let lease = start(&read(Slot::Malformed), "abc123", "hydra-design");
    assert_eq!(read(Slot::Lease(lease.clone())), Some(lease));
}

#[test]
fn restarting_the_same_session_keeps_the_original_start_time() {
    let old = Timestamp {
        second: 1_577_836_800,
        nanosecond: 0,
    };
    let backdated = Lease {
        session_id: "abc123".to_string(),
        tree: "hydra-design".to_string(),
        started_at: old,
    };
    let mut place = Place(Some(backdated.clone()));

    let again = place.start("abc123", "hydra-design");
    assert_eq!(again, backdated, "the same session, so the same lease");
    assert_eq!(place.read().unwrap().started_at, old, "and on disk too");

    // Another session's start time is not this one's.
    assert!(place.start("def456", "hydra-design").started_at > old);
}

#[test]
fn a_foreign_lease_is_displaced_rather_than_refused() {
    let mut place = Place(None);
    place.start("crashed-session", "storage-format");

    let taken = place.start("fresh-session", "hydra-design");
    assert_eq!(taken.session_id, "fresh-session");
    assert_eq!(taken.tree, "hydra-design");
    assert_eq!(place.read(), Some(taken));
}

#[test]
fn stop_reports_what_it_released_and_is_idempotent() {
    let mut place = Place(None);
    let lease = place.start("abc123", "hydra-design");
    assert_eq!(place.stop(), Some(lease));
    assert!(place.0.is_none());
    assert_eq!(place.stop(), None, "no lease is not a failure");
}

#[test]
fn stop_removes_a_foreign_or_corrupt_lease_too() {
    let mut place = Place(None);
    place.start("another-session", "hydra-design");
    assert_eq!(
        place.stop().map(|lease| lease.session_id),
        Some("another-session".to_string())
    );

    assert_eq!(
        stop(read(Slot::Malformed), Removal::Removed),
        None,
        "nothing that was a lease was released"
    );
}

#[test]
fn a_lease_that_went_while_it_was_read_was_not_released() {
    let lease = start(&None, "abc123", "t");
    assert_eq!(stop(Some(lease), Removal::NotThere), None);
}

#[test]
fn taking_a_lease_on_another_tree_keeps_its_start() {
    let early = Timestamp {
        second: 10,
        nanosecond: 0,
    };
    let late = Timestamp {
        second: 20,
        nanosecond: 0,
    };
    let first = start_at(&None, "s", "one", early);
    let second = start_at(&Some(first), "s", "two", late);
    assert_eq!((second.tree.as_str(), second.started_at), ("two", early));
    let third = start_at(&Some(second), "other", "two", late);
    assert_eq!(third.started_at, late);
}

#[test]
fn only_a_foreign_lease_is_worth_a_word() {
    let held = Some(start(&None, "old", "hydra-design"));
    assert_eq!(
        displacement(&held, "new").as_deref(),
        Some("replacing a lease left by session old on 'hydra-design'")
    );
    assert_eq!(displacement(&held, "old"), None);
    assert_eq!(displacement(&None, "new"), None);
}

#[test]
fn the_session_comes_from_the_flag_or_the_environment() {
    assert_eq!(
        resolve_session_id(Some(" abc "), Some("env")).as_deref(),
        Ok("abc")
    );
    assert_eq!(
        resolve_session_id(None, Some("env\n")).as_deref(),
        Ok("env")
    );
    let refused = Err(
        "no session to grill: $CLAUDE_CODE_SESSION_ID is unset or empty, so pass --session-id"
            .to_string(),
    );
    assert_eq!(resolve_session_id(None, None), refused);
    assert_eq!(resolve_session_id(None, Some("  ")), refused);
    assert_eq!(
        resolve_session_id(Some(""), Some("env")),
        refused,
        "a flag that is given and blank does not fall back"
    );
}

#[test]
fn a_session_takes_the_lease_and_says_what_it_displaces() {
    let taking = take(&None, Some(" abc123 "), None, "hydra-design").unwrap();
    assert_eq!(taking.lease.session_id, "abc123");
    assert_eq!(taking.lease.tree, "hydra-design");
    assert_eq!(taking.note, None);

    let held = Some(taking.lease.clone());
    let again = take(&held, Some("abc123"), None, "storage-format").unwrap();
    assert_eq!(again.lease.started_at, taking.lease.started_at);
    assert_eq!(again.note, None);

    let other = take(&held, None, Some("xyz"), "hydra-design").unwrap();
    assert_eq!(other.lease.session_id, "xyz");
    assert_eq!(
        other.note.as_deref(),
        Some("replacing a lease left by session abc123 on 'hydra-design'")
    );
    assert!(take(&held, Some("  "), Some("xyz"), "hydra-design").is_err());
}

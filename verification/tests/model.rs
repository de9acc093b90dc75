use hydra::heads::Heads;
use hydra::model::{now, truncated, Answer, Head, Rejected, Status, Timestamp, Tree, VERSION};
use std::str::FromStr;
use ulid::Ulid;

fn ts(s: &str) -> Timestamp {
    let at = jiff::Timestamp::from_str(s).unwrap();
    Timestamp {
        second: at.as_second(),
        nanosecond: at.subsec_nanosecond(),
    }
}

fn fixture_tree() -> Tree {
    let root = Head {
        id: Ulid::from_string("01J8XQ2K7T4V9WZ3N5M6P8R0AA").unwrap(),
        slug: "consumption-surface".to_string(),
        question: "What does hydra look like from outside?".to_string(),
        parent: None,
        seq: 1,
        blocked_by: vec![],
        status: Status::Open,
        rev: 0,
        created_at: ts("2026-07-28T04:11:30Z"),
        updated_at: ts("2026-07-28T04:11:30Z"),
        answer: None,
        prior: None,
    };
    let shape = Head {
        id: Ulid::from_string("01J8XQ2K7T4V9WZ3N5M6P8R0AB").unwrap(),
        slug: "graph-shape".to_string(),
        question: "Strict tree, tree + dep edges, or pure DAG?".to_string(),
        parent: Some("consumption-surface".to_string()),
        seq: 2,
        blocked_by: vec!["consumption-surface".to_string()],
        status: Status::Answered,
        rev: 1,
        created_at: ts("2026-07-28T04:12:00Z"),
        updated_at: ts("2026-07-28T04:19:31Z"),
        answer: Some(Answer {
            text: "spanning tree + blocked_by cross edges".to_string(),
            rationale: Some(
                "nesting keeps the resume dump legible; cross edges cost one cycle check"
                    .to_string(),
            ),
            rejected: vec![
                Rejected {
                    option: "strict tree".to_string(),
                    why_not: "can't express cross-branch gating".to_string(),
                },
                Rejected {
                    option: "pure DAG".to_string(),
                    why_not: "render nondeterministic, loses 'where am I'".to_string(),
                },
            ],
            cauterised_by: None,
        }),
        prior: None,
    };

    let mut heads = Heads::new();
    heads.insert(shape.slug.clone(), shape);
    heads.insert(root.slug.clone(), root);
    Tree {
        version: VERSION,
        slug: "hydra-design".to_string(),
        intent: String::new(),
        created_at: ts("2026-07-28T04:11:02Z"),
        heads,
    }
}

#[test]
fn now_has_second_precision() {
    assert_eq!(now().subsec_nanosecond(), 0);
}

#[test]
fn now_is_after_this_was_written() {
    assert!(now() > ts("2024-01-01T00:00:00Z"));
}

#[test]
fn moments_lose_their_fraction_and_nothing_else() {
    let at = Timestamp {
        second: 1_700_000_000,
        nanosecond: 123_456_789,
    };
    assert_eq!(
        truncated(at),
        Timestamp {
            second: 1_700_000_000,
            nanosecond: 0
        }
    );
    let beyond = Timestamp {
        second: i64::MAX,
        nanosecond: 5,
    };
    assert_eq!(truncated(beyond), beyond);
    let last = Timestamp {
        second: hydra::model::LAST_SECOND,
        nanosecond: 5,
    };
    assert_eq!(truncated(last).nanosecond, 0);
    let past = Timestamp {
        second: hydra::model::LAST_SECOND + 1,
        nanosecond: 5,
    };
    assert_eq!(truncated(past), past);
    let first = Timestamp {
        second: hydra::model::FIRST_SECOND,
        nanosecond: -5,
    };
    assert_eq!(truncated(first).nanosecond, 0);
    let before = Timestamp {
        second: hydra::model::FIRST_SECOND - 1,
        nanosecond: -5,
    };
    assert_eq!(truncated(before), before);
}

#[test]
fn touch_advances_updated_at() {
    let mut head = fixture_tree().heads.remove("consumption-surface").unwrap();
    let created = head.created_at;
    head.touch();
    assert!(head.updated_at > created);
    assert_eq!(head.created_at, created, "created_at is immutable");
}

#[test]
fn set_answer_captures_prior_and_bumps_rev() {
    let mut head = fixture_tree().heads.remove("consumption-surface").unwrap();
    let first = Answer {
        text: "CLI unix tool".to_string(),
        rationale: None,
        rejected: vec![],
        cauterised_by: None,
    };
    head.set_answer(first.clone());
    assert_eq!(head.status, Status::Answered);
    assert_eq!(head.rev, 1);
    assert_eq!(head.answer.as_ref(), Some(&first));
    assert_eq!(head.prior, None, "nothing was superseded yet");

    let second = Answer {
        text: "CLI unix tool plus an MCP shim".to_string(),
        ..first.clone()
    };
    head.set_answer(second.clone());
    assert_eq!(head.rev, 2);
    assert_eq!(head.answer.as_ref(), Some(&second));
    assert_eq!(
        head.prior.as_ref(),
        Some(&first),
        "prior holds the single most recent superseded answer"
    );
}

#[test]
fn a_reopened_head_keeps_its_answer_as_prior_through_the_next() {
    let mut head = fixture_tree().heads.remove("graph-shape").unwrap();
    let old = head.answer.clone();
    assert!(head.reopen());
    assert!(!head.reopen(), "an open head is left alone");
    assert_eq!((&head.answer, &head.prior), (&None, &old));
    head.set_answer(Answer {
        text: "something else".to_string(),
        rationale: None,
        rejected: vec![],
        cauterised_by: None,
    });
    assert_eq!(head.prior, old);
    assert_eq!(head.rev, 2);
}

#[test]
fn heads_are_kept_in_the_order_of_their_slugs() {
    let mut heads = fixture_tree().heads;
    assert_eq!(heads.len(), 2);
    assert_eq!(heads.key_at(0), "consumption-surface");
    assert_eq!(heads.key_at(1), "graph-shape");
    assert_eq!(heads.value_at(1).seq, 2);
    assert!(heads.get("graph").is_none());
    assert!(heads.get_mut("graph").is_none());

    let shape = heads.remove("graph-shape").unwrap();
    assert!(heads.remove("graph-shape").is_none());
    assert!(heads.insert("a".to_string(), shape.clone()).is_none());
    assert_eq!(heads.key_at(0), "a");
    assert_eq!(heads.insert("a".to_string(), shape.clone()), Some(shape));
    assert_eq!(heads.len(), 2);
    assert!(!heads.is_empty());
    assert!(Heads::new().is_empty());
}

#[test]
fn a_new_tree_is_empty_and_of_this_version() {
    let tree = Tree::new("t".to_string());
    assert_eq!(tree.version, 1);
    assert_eq!(tree.slug, "t");
    assert_eq!(tree.intent, "");
    assert!(tree.heads.is_empty());
    assert_eq!(tree.created_at.subsec_nanosecond(), 0);
}

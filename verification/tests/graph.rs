use hydra::graph::{
    cauterise, cut, link, reopen, reparent, reword, sprout, sprout_with, unlink, Cauterise, Cut,
    Edge, Sprout, CAUTERISED,
};
use hydra::model::{Head, Rejected, Status, Timestamp, Tree};
use hydra::Error;
use ulid::Ulid;

fn at<'t>(tree: &'t Tree, slug: &str) -> &'t Head {
    tree.heads.get(slug).unwrap()
}


fn tree() -> Tree {
    Tree::with_intent("t".to_string(), "test intent".to_string())
}

fn add(tree: &mut Tree, slug: &str, parent: Option<&str>) {
    sprout(
        tree,
        Sprout {
            question: "q?",
            parent,
            slug: Some(slug),
            ..Sprout::default()
        },
    )
    .unwrap();
}

fn answered_chain(tree: &mut Tree, slugs: &[&str]) {
    let mut parent = None;
    for slug in slugs {
        add(tree, slug, parent);
        answer(tree, slug);
        parent = Some(slug);
    }
}

fn answer(tree: &mut Tree, slug: &str) {
    cut(
        tree,
        Cut {
            slug,
            answer: "because",
            ..Cut::default()
        },
    )
    .unwrap();
}

fn reanswer(tree: &mut Tree, slug: &str) -> Vec<String> {
    cut(
        tree,
        Cut {
            slug,
            answer: "actually, because",
            ..Cut::default()
        },
    )
    .unwrap()
}

fn rejects<T: std::fmt::Debug>(
    tree: &mut Tree,
    op: impl FnOnce(&mut Tree) -> Result<T, Error>,
) -> Error {
    let before = tree.clone();
    let err = op(tree).expect_err("should have been rejected");
    assert_eq!(
        *tree, before,
        "a rejected operation must not mutate the tree"
    );
    err
}

#[test]
fn sprout_sets_the_defaults() {
    let mut t = tree();
    add(&mut t, "root", None);
    let slug = sprout(
        &mut t,
        Sprout {
            question: "Strict tree or DAG?",
            parent: Some("root"),
            blocked_by: &["root"],
            slug: None,
        },
    )
    .unwrap();

    assert_eq!(slug, "strict-tree-or-dag");
    let head = at(&t, &slug);
    assert_eq!(head.question, "Strict tree or DAG?");
    assert_eq!(head.parent.as_deref(), Some("root"));
    assert_eq!(head.blocked_by, vec!["root".to_string()]);
    assert_eq!(head.status, Status::Open);
    assert_eq!(head.rev, 0);
    assert_eq!(head.answer, None);
    assert_eq!(head.prior, None);
    assert_eq!(head.created_at, head.updated_at);
    assert_eq!(head.slug, slug, "the map key and the field agree");
    assert_ne!(head.id, Ulid::nil());
}

#[test]
fn sprout_seq_is_per_sibling_set() {
    let mut t = tree();
    add(&mut t, "a", None);
    add(&mut t, "b", None);
    add(&mut t, "a1", Some("a"));
    add(&mut t, "a2", Some("a"));
    add(&mut t, "b1", Some("b"));

    assert_eq!(at(&t, "a").seq, 1);
    assert_eq!(at(&t, "b").seq, 2);
    assert_eq!(at(&t, "a1").seq, 1);
    assert_eq!(at(&t, "a2").seq, 2);
    assert_eq!(at(&t, "b1").seq, 1, "a fresh sibling set restarts at 1");
}

#[test]
fn reparent_re_seats_a_head_in_its_new_sibling_set() {
    let mut t = tree();
    add(&mut t, "a", None);
    add(&mut t, "b", None);
    add(&mut t, "a1", Some("a"));
    add(&mut t, "a2", Some("a"));
    add(&mut t, "b1", Some("b"));

    reparent(&mut t, "a2", Some("b")).unwrap();
    assert_eq!(at(&t, "a2").seq, 2, "last in its new sibling set");

    add(&mut t, "a3", Some("a"));
    assert_eq!(
        at(&t, "a3").seq, 2,
        "seq is only unique within the current sibling set, so a departed head's value is free"
    );
    add(&mut t, "b2", Some("b"));
    assert_eq!(at(&t, "b2").seq, 3, "behind the head that moved in");
}

#[test]
fn sprout_disambiguates_a_derived_slug() {
    let mut t = tree();
    for expected in ["how-many-heads", "how-many-heads-2", "how-many-heads-3"] {
        let slug = sprout(
            &mut t,
            Sprout {
                question: "How many heads?",
                ..Sprout::default()
            },
        )
        .unwrap();
        assert_eq!(slug, expected);
    }
    assert_eq!(t.heads.len(), 3);
}

#[test]
fn sprout_rejects_a_question_that_slugifies_to_nothing() {
    let mut t = tree();
    let err = rejects(&mut t, |t| {
        sprout(
            t,
            Sprout {
                question: "???",
                ..Sprout::default()
            },
        )
    });
    assert!(matches!(err, Error::MalformedSlug { slug } if slug.is_empty()));
}

#[test]
fn sprout_rejects_a_duplicate_slug() {
    let mut t = tree();
    add(&mut t, "a", None);
    let err = rejects(&mut t, |t| {
        sprout(
            t,
            Sprout {
                question: "different question?",
                slug: Some("a"),
                ..Sprout::default()
            },
        )
    });
    assert!(matches!(err, Error::DuplicateSlug { slug } if slug == "a"));
}

#[test]
fn sprout_rejects_a_malformed_slug() {
    let mut t = tree();
    let err = rejects(&mut t, |t| {
        sprout(
            t,
            Sprout {
                question: "q?",
                slug: Some("Not A Slug"),
                ..Sprout::default()
            },
        )
    });
    assert!(matches!(err, Error::MalformedSlug { slug } if slug == "Not A Slug"));
}

#[test]
fn sprout_rejects_an_unknown_parent() {
    let mut t = tree();
    let err = rejects(&mut t, |t| {
        sprout(
            t,
            Sprout {
                question: "q?",
                parent: Some("ghost"),
                slug: Some("a"),
                ..Sprout::default()
            },
        )
    });
    assert!(matches!(err, Error::UnknownParent { slug, parent }
        if slug == "a" && parent == "ghost"));
}

#[test]
fn sprout_rejects_being_its_own_parent() {
    let mut t = tree();
    let err = rejects(&mut t, |t| {
        sprout(
            t,
            Sprout {
                question: "q?",
                parent: Some("a"),
                slug: Some("a"),
                ..Sprout::default()
            },
        )
    });
    assert!(matches!(err, Error::UnknownParent { slug, parent }
        if slug == "a" && parent == "a"));
}

#[test]
fn sprout_rejects_an_unknown_blocker() {
    let mut t = tree();
    add(&mut t, "a", None);
    let err = rejects(&mut t, |t| {
        sprout(
            t,
            Sprout {
                question: "q?",
                blocked_by: &["a", "ghost"],
                slug: Some("b"),
                ..Sprout::default()
            },
        )
    });
    assert!(matches!(err, Error::UnknownBlocker { slug, blocked_by }
        if slug == "b" && blocked_by == "ghost"));
}

#[test]
fn sprout_canonicalises_its_blockers() {
    let mut t = tree();
    add(&mut t, "a", None);
    add(&mut t, "b", None);
    link(&mut t, "a", "b", false).unwrap();
    sprout(
        &mut t,
        Sprout {
            question: "q?",
            blocked_by: &["a", "b", "b"],
            slug: Some("c"),
            ..Sprout::default()
        },
    )
    .unwrap();
    assert_eq!(
        at(&t, "c").blocked_by,
        vec!["a".to_string(), "b".to_string()],
        "sorted and deduplicated"
    );
}

#[test]
fn cut_answers_without_cascading() {
    let mut t = tree();
    answered_chain(&mut t, &["root"]);
    add(&mut t, "child", Some("root"));

    let cascaded = cut(
        &mut t,
        Cut {
            slug: "child",
            answer: "spanning tree\nand cross edges",
            rationale: Some("legible"),
            rejected: vec![Rejected {
                option: "pure DAG".to_string(),
                why_not: "nondeterministic".to_string(),
            }],
            ..Cut::default()
        },
    )
    .unwrap();
    assert!(cascaded.is_empty(), "a first answer cascades onto nothing");

    let head = at(&t, "child");
    assert_eq!(head.status, Status::Answered);
    assert_eq!(head.rev, 1);
    assert_eq!(head.prior, None);
    let answer = head.answer.as_ref().unwrap();
    assert_eq!(answer.text, "spanning tree\nand cross edges");
    assert_eq!(answer.rationale.as_deref(), Some("legible"));
    assert_eq!(answer.rejected.len(), 1);
    assert_eq!(answer.cauterised_by, None);
}

#[test]
fn cut_rejects_unanswered_blockers() {
    let mut t = tree();
    add(&mut t, "a", None);
    add(&mut t, "b", None);
    add(&mut t, "c", None);
    answer(&mut t, "c");
    link(&mut t, "a", "b", false).unwrap();
    link(&mut t, "a", "c", false).unwrap();

    let err = rejects(&mut t, |t| {
        cut(
            t,
            Cut {
                slug: "a",
                answer: "x",
                ..Cut::default()
            },
        )
    });
    assert!(matches!(err, Error::BlockedCut { slug, blockers }
        if slug == "a" && blockers == vec!["b".to_string()]));

    t.heads
        .get_mut("a")
        .unwrap()
        .set_blocked_by(vec!["ghost".to_string()]);
    let err = rejects(&mut t, |t| {
        cut(
            t,
            Cut {
                slug: "a",
                answer: "x",
                ..Cut::default()
            },
        )
    });
    assert!(matches!(err, Error::BlockedCut { slug, blockers }
        if slug == "a" && blockers == vec!["ghost".to_string()]));
}

#[test]
fn force_cuts_through_unanswered_blockers_and_records_nothing() {
    let mut t = tree();
    add(&mut t, "a", None);
    add(&mut t, "b", None);
    link(&mut t, "a", "b", false).unwrap();

    cut(
        &mut t,
        Cut {
            slug: "a",
            answer: "x",
            force: true,
            ..Cut::default()
        },
    )
    .unwrap();

    let head = at(&t, "a");
    let answer = head.answer.as_ref().unwrap();
    assert_eq!(answer.text, "x", "force leaves no trace in the answer");
    assert_eq!(answer.rationale, None);
    assert!(answer.rejected.is_empty());
    assert_eq!(answer.cauterised_by, None);
    assert_eq!(
        head.blocked_by,
        vec!["b".to_string()],
        "the edge it was forced past survives"
    );
    assert_eq!(at(&t, "b").status, Status::Open);
}

#[test]
fn cut_rejects_an_unknown_head() {
    let mut t = tree();
    let err = rejects(&mut t, |t| {
        cut(
            t,
            Cut {
                slug: "ghost",
                answer: "x",
                ..Cut::default()
            },
        )
    });
    assert!(matches!(err, Error::UnknownHead { slug } if slug == "ghost"));
}

#[test]
fn reanswer_cascades_over_both_edge_kinds() {
    let mut t = tree();
    answered_chain(&mut t, &["root", "kid", "grandkid"]);
    add(&mut t, "elsewhere", None);
    answer(&mut t, "elsewhere");
    add(&mut t, "gated", Some("elsewhere"));
    link(&mut t, "gated", "kid", false).unwrap();
    answer(&mut t, "gated");
    add(&mut t, "gated-kid", Some("gated"));
    answer(&mut t, "gated-kid");

    let cascaded = reanswer(&mut t, "root");
    assert_eq!(
        cascaded,
        vec!["gated", "gated-kid", "grandkid", "kid"],
        "the child of a head blocked by root is only reachable by alternating edge kinds"
    );
    assert_eq!(at(&t, "root").status, Status::Answered);
    assert_eq!(
        at(&t, "elsewhere").status,
        Status::Answered,
        "gated's parent stands on nothing root said"
    );
    for slug in cascaded {
        assert_eq!(at(&t, &slug).status, Status::Open, "{slug}");
    }
}

#[test]
fn cascade_reopens_a_diamond_once() {
    let mut t = tree();
    answered_chain(&mut t, &["root"]);
    add(&mut t, "elsewhere", None);
    answer(&mut t, "elsewhere");
    for slug in ["left", "right"] {
        add(&mut t, slug, Some("root"));
        answer(&mut t, slug);
    }
    add(&mut t, "join", Some("elsewhere"));
    link(&mut t, "join", "left", false).unwrap();
    link(&mut t, "join", "right", false).unwrap();
    answer(&mut t, "join");

    let cascaded = reanswer(&mut t, "root");
    assert_eq!(
        cascaded,
        vec!["join", "left", "right"],
        "join is reachable by two blocked_by paths and appears once"
    );
}

#[test]
fn cascade_walks_through_an_open_head() {
    let mut t = tree();
    answered_chain(&mut t, &["root", "middle", "leaf"]);
    reopen(&mut t, "middle").unwrap();
    answer(&mut t, "leaf");

    let cascaded = reanswer(&mut t, "root");
    assert_eq!(
        cascaded,
        vec!["leaf"],
        "an already-open head is not reported, but staleness passes through it"
    );
    assert_eq!(at(&t, "leaf").status, Status::Open);
}

#[test]
fn cascade_terminates_on_a_forced_cycle() {
    let mut t = tree();
    add(&mut t, "a", None);
    add(&mut t, "b", None);
    link(&mut t, "b", "a", false).unwrap();
    link(&mut t, "a", "b", true).unwrap();
    for slug in ["b", "a"] {
        cut(
            &mut t,
            Cut {
                slug,
                answer: "first",
                force: true,
                ..Cut::default()
            },
        )
        .unwrap();
    }

    let cascaded = cut(
        &mut t,
        Cut {
            slug: "a",
            answer: "second",
            force: true,
            ..Cut::default()
        },
    )
    .unwrap();
    assert_eq!(cascaded, vec!["b".to_string()]);
    assert_eq!(
        at(&t, "a").status,
        Status::Answered,
        "the cycle must not reopen the answer that started the cascade"
    );
}

#[test]
fn keep_subtree_skips_the_cascade_on_cut() {
    let mut t = tree();
    answered_chain(&mut t, &["root", "kid"]);

    let cascaded = cut(
        &mut t,
        Cut {
            slug: "root",
            answer: "typo fixed",
            keep_subtree: true,
            ..Cut::default()
        },
    )
    .unwrap();
    assert!(cascaded.is_empty());
    assert_eq!(at(&t, "kid").status, Status::Answered);
}

#[test]
fn reopen_always_cascades() {
    let mut t = tree();
    answered_chain(&mut t, &["root", "kid"]);
    assert_eq!(reopen(&mut t, "root").unwrap(), vec!["kid"]);
    assert_eq!(at(&t, "kid").status, Status::Open);
}

#[test]
fn cut_after_a_reopen_is_a_re_answer() {
    let mut t = tree();
    answered_chain(&mut t, &["root", "kid"]);
    reopen(&mut t, "root").unwrap();
    answer(&mut t, "kid");

    let cascaded = cut(
        &mut t,
        Cut {
            slug: "root",
            answer: "a totally different answer",
            ..Cut::default()
        },
    )
    .unwrap();
    assert_eq!(cascaded, vec!["kid"]);
    assert_eq!(at(&t, "kid").status, Status::Open);
    assert_eq!(at(&t, "root").rev, 2);
}

#[test]
fn reopen_keeps_prior() {
    let mut t = tree();
    answered_chain(&mut t, &["root"]);
    reopen(&mut t, "root").unwrap();

    let head = at(&t, "root");
    assert_eq!(head.status, Status::Open);
    assert_eq!(head.answer, None);
    assert_eq!(
        head.prior.as_ref().map(|a| a.text.as_str()),
        Some("because"),
        "a reopened head keeps its prior answer for context"
    );
    assert_eq!(head.rev, 1, "rev counts answers given, not withdrawals");
}

#[test]
fn reopen_of_a_cauterised_head_is_not_a_cauterise() {
    let mut t = tree();
    add(&mut t, "by", None);
    answer(&mut t, "by");
    add(&mut t, "dead", None);
    cauterise(
        &mut t,
        Cauterise {
            slug: "dead",
            by: "by",
            ..Cauterise::default()
        },
    )
    .unwrap();

    reopen(&mut t, "dead").unwrap();
    let head = at(&t, "dead");
    assert_eq!(head.status, Status::Open);
    assert_eq!(head.answer, None, "no answer, so nothing cauterised");
    let prior = head.prior.as_ref().unwrap();
    assert_eq!(prior.text, CAUTERISED);
    assert_eq!(
        prior.cauterised_by.as_deref(),
        Some("by"),
        "the kill record survives in prior"
    );
    assert_eq!(head.rev, 1);
}

#[test]
fn reopen_normalises_a_half_answered_head() {
    let mut t = tree();
    answered_chain(&mut t, &["root", "kid"]);
    t.heads.get_mut("root").unwrap().answer = None;

    assert_eq!(reopen(&mut t, "root").unwrap(), vec!["kid"]);
    assert_eq!(at(&t, "root").status, Status::Open);
}

#[test]
fn reopen_rejects_an_open_head() {
    let mut t = tree();
    add(&mut t, "a", None);
    let err = rejects(&mut t, |t| reopen(t, "a"));
    assert!(matches!(err, Error::IllegalTransition { slug, from, to }
        if slug == "a" && from == Status::Open && to == Status::Open));
}

#[test]
fn prior_survives_a_cascade_reopen_and_the_re_answer_after_it() {
    let mut t = tree();
    answered_chain(&mut t, &["root", "kid"]);
    reanswer(&mut t, "root");

    assert_eq!(
        at(&t, "kid").prior.as_ref().map(|a| a.text.as_str()),
        Some("because")
    );
    reanswer(&mut t, "kid");
    let kid = at(&t, "kid");
    assert_eq!(kid.answer.as_ref().unwrap().text, "actually, because");
    assert_eq!(
        kid.prior.as_ref().map(|a| a.text.as_str()),
        Some("because"),
        "the answer from before the reopen is still the most recent superseded one"
    );
    assert_eq!(kid.rev, 2);
}

#[test]
fn cauterise_answers_with_the_marker() {
    let mut t = tree();
    add(&mut t, "storage-format", None);
    answer(&mut t, "storage-format");
    add(&mut t, "write-model", Some("storage-format"));

    cauterise(
        &mut t,
        Cauterise {
            slug: "write-model",
            by: "storage-format",
            why: Some("the format decision settles it"),
            force: false,
        },
    )
    .unwrap();

    let head = at(&t, "write-model");
    assert_eq!(
        head.status,
        Status::Answered,
        "cauterisation is not a state"
    );
    assert_eq!(head.rev, 1);
    let answer = head.answer.as_ref().unwrap();
    assert_eq!(answer.text, CAUTERISED);
    assert_eq!(answer.cauterised_by.as_deref(), Some("storage-format"));
    assert_eq!(
        answer.rationale.as_deref(),
        Some("the format decision settles it"),
        "--why lands in rationale"
    );
}

#[test]
fn cauterise_ignores_unanswered_blockers() {
    let mut t = tree();
    add(&mut t, "by", None);
    answer(&mut t, "by");
    add(&mut t, "dead", None);
    add(&mut t, "blocker", None);
    link(&mut t, "dead", "blocker", false).unwrap();

    cauterise(
        &mut t,
        Cauterise {
            slug: "dead",
            by: "by",
            ..Cauterise::default()
        },
    )
    .unwrap();
    assert_eq!(at(&t, "dead").status, Status::Answered);
}

#[test]
fn cauterise_rejects_an_unanswered_by() {
    let mut t = tree();
    add(&mut t, "a", None);
    add(&mut t, "b", None);
    let err = rejects(&mut t, |t| {
        cauterise(
            t,
            Cauterise {
                slug: "a",
                by: "b",
                ..Cauterise::default()
            },
        )
    });
    assert!(matches!(err, Error::CauteriseByUnanswered { slug, by }
        if slug == "a" && by == "b"));
}

#[test]
fn force_cauterises_by_an_unanswered_head() {
    let mut t = tree();
    add(&mut t, "a", None);
    add(&mut t, "b", None);
    cauterise(
        &mut t,
        Cauterise {
            slug: "a",
            by: "b",
            force: true,
            ..Cauterise::default()
        },
    )
    .unwrap();
    assert_eq!(
        at(&t, "a")
            .answer
            .as_ref()
            .unwrap()
            .cauterised_by
            .as_deref(),
        Some("b")
    );
    assert_eq!(at(&t, "b").status, Status::Open, "force records nothing");
}

#[test]
fn cauterise_rejects_itself_even_under_force() {
    let mut t = tree();
    add(&mut t, "a", None);
    answer(&mut t, "a");
    for force in [false, true] {
        let err = rejects(&mut t, |t| {
            cauterise(
                t,
                Cauterise {
                    slug: "a",
                    by: "a",
                    force,
                    ..Cauterise::default()
                },
            )
        });
        assert!(matches!(err, Error::SelfCauterise { slug } if slug == "a"));
    }
}

#[test]
fn cauterise_rejects_unknown_heads() {
    let mut t = tree();
    add(&mut t, "a", None);
    answer(&mut t, "a");
    let err = rejects(&mut t, |t| {
        cauterise(
            t,
            Cauterise {
                slug: "ghost",
                by: "a",
                ..Cauterise::default()
            },
        )
    });
    assert!(matches!(err, Error::UnknownHead { slug } if slug == "ghost"));

    let err = rejects(&mut t, |t| {
        cauterise(
            t,
            Cauterise {
                slug: "a",
                by: "ghost",
                ..Cauterise::default()
            },
        )
    });
    assert!(matches!(err, Error::UnknownHead { slug } if slug == "ghost"));
}

#[test]
fn cauterise_of_an_answered_head_cascades() {
    let mut t = tree();
    answered_chain(&mut t, &["root", "kid"]);
    add(&mut t, "by", None);
    answer(&mut t, "by");

    let cascaded = cauterise(
        &mut t,
        Cauterise {
            slug: "kid",
            by: "by",
            ..Cauterise::default()
        },
    )
    .unwrap();
    assert!(cascaded.is_empty(), "kid has no dependents");

    let cascaded = cauterise(
        &mut t,
        Cauterise {
            slug: "root",
            by: "by",
            ..Cauterise::default()
        },
    )
    .unwrap();
    assert_eq!(cascaded, vec!["kid"], "a re-answer, cauterised or not");
}

#[test]
fn reword_leaves_the_answer_alone() {
    let mut t = tree();
    answered_chain(&mut t, &["a"]);
    reword(&mut t, "a", "a better question?").unwrap();

    let head = at(&t, "a");
    assert_eq!(head.question, "a better question?");
    assert_eq!(head.rev, 1);
    assert_eq!(head.status, Status::Answered);
    assert_eq!(head.answer.as_ref().unwrap().text, "because");

    let err = rejects(&mut t, |t| reword(t, "ghost", "q?"));
    assert!(matches!(err, Error::UnknownHead { slug } if slug == "ghost"));
}

#[test]
fn reparent_moves_a_head_and_can_root_it() {
    let mut t = tree();
    add(&mut t, "a", None);
    add(&mut t, "b", None);
    add(&mut t, "kid", Some("a"));

    reparent(&mut t, "kid", Some("b")).unwrap();
    assert_eq!(at(&t, "kid").parent.as_deref(), Some("b"));

    reparent(&mut t, "kid", None).unwrap();
    assert_eq!(at(&t, "kid").parent, None);
    assert_eq!(at(&t, "kid").seq, 3, "last among the roots");
}

#[test]
fn reparent_to_the_same_parent_is_a_no_op() {
    let mut t = tree();
    add(&mut t, "a", None);
    add(&mut t, "k1", Some("a"));
    add(&mut t, "k2", Some("a"));

    let before = t.clone();
    reparent(&mut t, "k1", Some("a")).unwrap();
    assert_eq!(
        t,
        before,
        "it must not re-seat a head at the end of the set it is already in"
    );
}

#[test]
fn reparent_rejects_its_own_descendant_and_itself() {
    let mut t = tree();
    add(&mut t, "a", None);
    add(&mut t, "b", Some("a"));
    add(&mut t, "c", Some("b"));

    let err = rejects(&mut t, |t| reparent(t, "a", Some("c")));
    assert!(matches!(err, Error::ParentCycle { slug, parent, path }
        if slug == "a" && parent == "c" && path == vec!["a", "b", "c"]));

    let err = rejects(&mut t, |t| reparent(t, "a", Some("a")));
    assert!(matches!(err, Error::ParentCycle { slug, path, .. }
        if slug == "a" && path == vec!["a"]));
}

#[test]
fn reparent_rejects_adopting_a_head_that_blocks_it() {
    let mut t = tree();
    add(&mut t, "a", None);
    add(&mut t, "b", None);
    link(&mut t, "a", "b", false).unwrap();

    let err = rejects(&mut t, |t| reparent(t, "b", Some("a")));
    assert!(matches!(err, Error::ReopenCycle { slug, edge, other, path }
        if slug == "b"
            && edge == Edge::Parent
            && other == "a"
            && path == vec!["b", "a", "b"]));
}

#[test]
fn reparent_accepts_adopting_a_head_it_is_gated_on() {
    let mut t = tree();
    add(&mut t, "a", None);
    add(&mut t, "b", None);
    link(&mut t, "b", "a", false).unwrap();

    reparent(&mut t, "b", Some("a")).unwrap();
    assert_eq!(at(&t, "b").parent.as_deref(), Some("a"));

    answer(&mut t, "a");
    answer(&mut t, "b");
    assert_eq!(reanswer(&mut t, "a"), vec!["b"]);
}

#[test]
fn reparent_rejects_an_unknown_parent() {
    let mut t = tree();
    add(&mut t, "a", None);
    let err = rejects(&mut t, |t| reparent(t, "a", Some("ghost")));
    assert!(matches!(err, Error::UnknownParent { slug, parent }
        if slug == "a" && parent == "ghost"));

    let err = rejects(&mut t, |t| reparent(t, "ghost", None));
    assert!(matches!(err, Error::UnknownHead { slug } if slug == "ghost"));
}

#[test]
fn link_rejects_a_cycle_and_names_it() {
    let mut t = tree();
    add(&mut t, "a", None);
    add(&mut t, "b", None);
    add(&mut t, "c", None);
    link(&mut t, "b", "a", false).unwrap();
    link(&mut t, "c", "b", false).unwrap();

    let err = rejects(&mut t, |t| link(t, "a", "c", false));
    assert!(matches!(err, Error::BlockCycle { slug, blocked_by, path }
        if slug == "a" && blocked_by == "c" && path == vec!["a", "c", "b", "a"]));
}

#[test]
fn force_links_a_cycle() {
    let mut t = tree();
    add(&mut t, "a", None);
    add(&mut t, "b", None);
    link(&mut t, "b", "a", false).unwrap();
    link(&mut t, "a", "b", true).unwrap();
    assert_eq!(at(&t, "a").blocked_by, vec!["b".to_string()]);
    assert_eq!(at(&t, "b").blocked_by, vec!["a".to_string()]);
}

#[test]
fn link_rejects_a_self_block_as_a_cycle() {
    let mut t = tree();
    add(&mut t, "a", None);
    let err = rejects(&mut t, |t| link(t, "a", "a", false));
    assert!(matches!(err, Error::BlockCycle { slug, path, .. }
        if slug == "a" && path == vec!["a", "a"]));

    link(&mut t, "a", "a", true).unwrap();
    assert_eq!(at(&t, "a").blocked_by, vec!["a".to_string()]);
}

#[test]
fn link_rejects_gating_a_head_on_its_own_descendant() {
    let mut t = tree();
    add(&mut t, "a", None);
    add(&mut t, "b", Some("a"));

    let err = rejects(&mut t, |t| link(t, "a", "b", false));
    assert!(matches!(err, Error::ReopenCycle { slug, edge, other, path }
        if slug == "a"
            && edge == Edge::BlockedBy
            && other == "b"
            && path == vec!["a", "b", "a"]));
}

#[test]
fn link_rejects_gating_a_head_on_a_grandchild() {
    let mut t = tree();
    add(&mut t, "a", None);
    add(&mut t, "b", Some("a"));
    add(&mut t, "c", Some("b"));

    let err = rejects(&mut t, |t| link(t, "a", "c", false));
    assert!(
        matches!(err, Error::ReopenCycle { slug, other, path, .. }
        if slug == "a" && other == "c" && path == vec!["a", "c", "b", "a"]),
        "the path walks back up the ancestry that closes the loop"
    );
}

#[test]
fn force_links_a_reopen_cycle() {
    let mut t = tree();
    add(&mut t, "a", None);
    add(&mut t, "b", Some("a"));
    link(&mut t, "a", "b", true).unwrap();
    assert_eq!(at(&t, "a").blocked_by, vec!["b".to_string()]);
}

#[test]
fn link_accepts_gating_a_head_on_its_ancestor() {
    let mut t = tree();
    add(&mut t, "a", None);
    add(&mut t, "b", Some("a"));
    add(&mut t, "c", Some("b"));
    link(&mut t, "c", "a", false).unwrap();

    for slug in ["a", "b", "c"] {
        answer(&mut t, slug);
    }
    assert_eq!(
        reanswer(&mut t, "a"),
        vec!["b", "c"],
        "each descendant is reopened once and nothing reopens a"
    );
    assert_eq!(at(&t, "a").status, Status::Answered);
}

#[test]
fn link_accepts_a_cross_branch_edge() {
    let mut t = tree();
    add(&mut t, "root", None);
    add(&mut t, "graph-shape", Some("root"));
    add(&mut t, "head-schema", Some("graph-shape"));
    add(&mut t, "storage-format", Some("root"));
    add(&mut t, "write-model", Some("storage-format"));

    link(&mut t, "write-model", "head-schema", false).unwrap();
    assert_eq!(
        at(&t, "write-model").blocked_by,
        vec!["head-schema".to_string()]
    );
}

#[test]
fn sprout_cannot_cycle_the_reopen_cascade() {
    let mut t = tree();
    add(&mut t, "a", None);
    add(&mut t, "kid", Some("a"));

    for (slug, blocked_by) in [("gated-on-parent", "a"), ("gated-on-sibling", "kid")] {
        sprout(
            &mut t,
            Sprout {
                question: "q?",
                parent: Some("a"),
                blocked_by: &[blocked_by],
                slug: Some(slug),
            },
        )
        .unwrap();
    }
    for slug in ["a", "kid", "gated-on-parent", "gated-on-sibling"] {
        answer(&mut t, slug);
    }

    assert_eq!(
        reanswer(&mut t, "a"),
        vec!["gated-on-parent", "gated-on-sibling", "kid"],
        "the cascade fans out and stops"
    );
    assert_eq!(at(&t, "a").status, Status::Answered);
}

#[test]
fn link_rejects_an_unknown_blocker() {
    let mut t = tree();
    add(&mut t, "a", None);
    let err = rejects(&mut t, |t| link(t, "a", "ghost", false));
    assert!(matches!(err, Error::UnknownBlocker { slug, blocked_by }
        if slug == "a" && blocked_by == "ghost"));

    let err = rejects(&mut t, |t| link(t, "ghost", "a", false));
    assert!(matches!(err, Error::UnknownHead { slug } if slug == "ghost"));
}

#[test]
fn link_is_idempotent_and_sorts_its_edges() {
    let mut t = tree();
    for slug in ["a", "m", "b"] {
        add(&mut t, slug, None);
    }
    link(&mut t, "a", "m", false).unwrap();
    link(&mut t, "a", "b", false).unwrap();
    assert_eq!(
        at(&t, "a").blocked_by,
        vec!["b".to_string(), "m".to_string()]
    );

    let before = t.clone();
    link(&mut t, "a", "m", false).unwrap();
    assert_eq!(t, before);
}

#[test]
fn unlink_is_idempotent_and_repairs_a_dangling_edge() {
    let mut t = tree();
    add(&mut t, "a", None);
    add(&mut t, "b", None);
    link(&mut t, "a", "b", false).unwrap();

    unlink(&mut t, "a", "b").unwrap();
    assert!(at(&t, "a").blocked_by.is_empty());

    let before = t.clone();
    unlink(&mut t, "a", "b").unwrap();
    assert_eq!(t, before);

    t.heads
        .get_mut("a")
        .unwrap()
        .set_blocked_by(vec!["ghost".to_string()]);
    unlink(&mut t, "a", "ghost").unwrap();
    assert!(at(&t, "a").blocked_by.is_empty());

    let err = rejects(&mut t, |t| unlink(t, "ghost", "a"));
    assert!(matches!(err, Error::UnknownHead { slug } if slug == "ghost"));
}

#[test]
fn a_sprouted_head_has_an_identifier_of_its_own() {
    let mut t = tree();
    add(&mut t, "a", None);
    add(&mut t, "b", None);
    assert_ne!(at(&t, "a").id, at(&t, "b").id);
}

#[test]
fn a_head_can_be_sprouted_with_a_given_identifier_and_time() {
    let mut t = tree();
    let moment = Timestamp {
        second: 7,
        nanosecond: 0,
    };
    let slug = sprout_with(
        &mut t,
        Sprout {
            question: "Why?",
            ..Sprout::default()
        },
        Ulid(42),
        moment,
    )
    .unwrap();
    let head = at(&t, &slug);
    assert_eq!((head.id, head.created_at), (Ulid(42), moment));
    assert_eq!((head.slug.as_str(), head.seq), ("why", 1));
}

#[test]
fn unlinking_undoes_linking_but_for_the_time() {
    let mut t = tree();
    for slug in ["a", "b", "c"] {
        add(&mut t, slug, None);
    }
    link(&mut t, "a", "b", false).unwrap();
    let before = at(&t, "a").clone();
    link(&mut t, "a", "c", false).unwrap();
    unlink(&mut t, "a", "c").unwrap();
    let mut after = at(&t, "a").clone();
    after.updated_at = before.updated_at;
    assert_eq!(after, before);
}

#[test]
fn a_route_takes_the_earliest_blocker_that_leads_on() {
    let mut t = tree();
    for slug in ["goal", "dead-end", "left", "right", "start"] {
        add(&mut t, slug, None);
    }
    link(&mut t, "left", "goal", false).unwrap();
    link(&mut t, "right", "goal", false).unwrap();
    for slug in ["dead-end", "right", "left"] {
        link(&mut t, "start", slug, false).unwrap();
    }
    match link(&mut t, "goal", "start", false) {
        Err(Error::BlockCycle { path, .. }) => {
            assert_eq!(path, vec!["goal", "start", "left", "goal"])
        }
        other => panic!("{other:?}"),
    }
}

#[test]
fn revising_spares_what_the_answer_rests_on() {
    let mut t = tree();
    answered_chain(&mut t, &["root", "kid", "grandkid"]);
    assert_eq!(reanswer(&mut t, "kid"), vec!["grandkid"]);
    assert_eq!(at(&t, "root").status, Status::Answered);
}

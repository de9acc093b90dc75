use hydra::graph::{self, Cauterise, Cut, Sprout, CAUTERISED};
use hydra::model::{Head, Status, Tree};
use hydra::query::{
    ancestors, first_line, is_blocked, is_done, is_ready, next, next_slug, open_blockers, preorder, ready,
    resume, show, skeleton, state, status, State,
};
use hydra::Error;
use std::collections::BTreeMap;

fn at<'t>(tree: &'t Tree, slug: &str) -> &'t Head {
    tree.heads.get(slug).unwrap()
}


fn tree() -> Tree {
    Tree::new("t".to_string())
}

fn add(tree: &mut Tree, slug: &str, parent: Option<&str>) {
    graph::sprout(
        tree,
        Sprout {
            question: "q?",
            parent,
            slug: Some(slug),
            ..Sprout::default()
        },
    )
    .unwrap();
}

fn answer(tree: &mut Tree, slug: &str, text: &str) {
    graph::cut(
        tree,
        Cut {
            slug,
            answer: text,
            force: true,
            ..Cut::default()
        },
    )
    .unwrap();
}

fn slugs(tree: &Tree) -> Vec<&str> {
    preorder(tree).into_iter().map(|v| v.slug).collect()
}

fn depths(tree: &Tree) -> Vec<(&str, usize)> {
    preorder(tree)
        .into_iter()
        .map(|v| (v.slug, v.depth))
        .collect()
}

fn fanned() -> Tree {
    let mut t = tree();
    add(&mut t, "root", None);
    add(&mut t, "a", Some("root"));
    add(&mut t, "a1", Some("a"));
    add(&mut t, "a2", Some("a"));
    add(&mut t, "b", Some("root"));
    add(&mut t, "b1", Some("b"));
    t
}

#[test]
fn preorder_is_depth_first_by_seq() {
    let t = fanned();
    assert_eq!(slugs(&t), vec!["root", "a", "a1", "a2", "b", "b1"]);
    assert_eq!(
        depths(&t),
        vec![
            ("root", 0),
            ("a", 1),
            ("a1", 2),
            ("a2", 2),
            ("b", 1),
            ("b1", 2)
        ]
    );
}

#[test]
fn preorder_orders_roots_like_any_sibling_set() {
    let mut t = tree();
    add(&mut t, "second", None);
    add(&mut t, "first", None);
    add(&mut t, "kid", Some("second"));
    assert_eq!(
        slugs(&t),
        vec!["second", "kid", "first"],
        "roots go by seq, not by slug"
    );
}

#[test]
fn preorder_is_stable_under_insertion() {
    let mut t = fanned();
    let before: Vec<String> = slugs(&t).into_iter().map(str::to_string).collect();
    add(&mut t, "a3", Some("a"));
    add(&mut t, "deep", Some("a1"));
    let after = slugs(&t);

    let kept: Vec<&str> = after
        .iter()
        .copied()
        .filter(|s| before.iter().any(|b| b == s))
        .collect();
    assert_eq!(kept, before, "an insertion must not reorder existing heads");
    assert_eq!(
        after,
        vec!["root", "a", "a1", "deep", "a2", "a3", "b", "b1"]
    );
}

#[test]
fn preorder_follows_a_reparent() {
    let mut t = fanned();
    graph::reparent(&mut t, "a", Some("b")).unwrap();
    assert_eq!(
        slugs(&t),
        vec!["root", "b", "b1", "a", "a1", "a2"],
        "the subtree moves whole, and lands last in its new sibling set"
    );

    graph::reparent(&mut t, "a1", None).unwrap();
    assert_eq!(slugs(&t), vec!["root", "b", "b1", "a", "a2", "a1"]);
    assert_eq!(depths(&t).last(), Some(&("a1", 0)), "a new root");
}

#[test]
fn preorder_orders_a_tied_seq_by_slug() {
    let mut t = fanned();
    add(&mut t, "a0", Some("a"));
    assert_eq!(slugs(&t), vec!["root", "a", "a1", "a2", "a0", "b", "b1"]);

    for slug in ["a0", "a1", "a2"] {
        t.heads.get_mut(slug).unwrap().seq = 1;
    }
    assert_eq!(slugs(&t), vec!["root", "a", "a0", "a1", "a2", "b", "b1"]);
}

#[test]
fn preorder_walks_a_dangling_parent_as_a_root() {
    let mut t = fanned();
    t.heads.get_mut("a").unwrap().parent = Some("ghost".to_string());

    assert_eq!(slugs(&t), vec!["a", "a1", "a2", "root", "b", "b1"]);
    assert_eq!(
        depths(&t).iter().find(|(s, _)| *s == "a"),
        Some(&("a", 0)),
        "no ancestry to nest under"
    );
    assert_eq!(
        ancestors(&t, "a1"),
        vec!["a".to_string()],
        "the chain stops where the file stops making sense"
    );
}

#[test]
fn preorder_terminates_on_a_parent_cycle_and_drops_nothing() {
    let mut t = fanned();
    t.heads.get_mut("root").unwrap().parent = Some("a1".to_string());

    let walked = slugs(&t);
    assert_eq!(walked.len(), t.heads.len());
    assert_eq!(
        walked,
        vec!["a", "a1", "root", "b", "b1", "a2"],
        "'a' is the first unvisited head in slug order, so the cycle enters there"
    );
    assert_eq!(
        ancestors(&t, "root"),
        vec!["a".to_string(), "a1".to_string()]
    );
}

#[test]
fn blocked_heads_are_excluded_from_ready() {
    let mut t = fanned();
    graph::link(&mut t, "b", "a", false).unwrap();

    assert_eq!(state(&t, at(&t, "b")), State::Blocked);
    assert_eq!(open_blockers(&t, at(&t, "b")), vec!["a".to_string()]);
    let ready: Vec<String> = ready(&t).into_iter().map(|r| r.slug).collect();
    assert_eq!(ready, vec!["root", "a", "a1", "a2", "b1"]);

    answer(&mut t, "a", "settled");
    assert_eq!(state(&t, at(&t, "b")), State::Ready);
}

#[test]
fn a_cauterised_blocker_unblocks_because_cauterised_is_answered() {
    let mut t = fanned();
    add(&mut t, "killer", None);
    answer(&mut t, "killer", "the format decision settles it");
    graph::link(&mut t, "b", "a", false).unwrap();
    graph::cauterise(
        &mut t,
        Cauterise {
            slug: "a",
            by: "killer",
            ..Cauterise::default()
        },
    )
    .unwrap();

    assert_eq!(state(&t, at(&t, "a")), State::Cauterised);
    assert!(
        is_ready(&t, at(&t, "b")),
        "cauterisation is not a state: the blocker is answered"
    );
    assert!(open_blockers(&t, at(&t, "b")).is_empty());
}

#[test]
fn a_missing_blocker_blocks() {
    let mut t = fanned();
    t.heads
        .get_mut("b")
        .unwrap()
        .set_blocked_by(vec!["ghost".to_string()]);

    assert_eq!(state(&t, at(&t, "b")), State::Blocked);
    assert_eq!(open_blockers(&t, at(&t, "b")), vec!["ghost".to_string()]);
    assert!(!ready(&t).iter().any(|r| r.slug == "b"));
}

#[test]
fn a_real_answer_saying_cauterised_is_not_cauterised() {
    let mut t = fanned();
    answer(&mut t, "a", CAUTERISED);
    assert_eq!(
        state(&t, at(&t, "a")),
        State::Answered,
        "the field is what identifies a cauterised head, not the text"
    );
}

#[test]
fn next_is_the_first_ready_head_in_preorder() {
    let mut t = fanned();
    answer(&mut t, "root", "CLI unix tool");
    answer(&mut t, "a", "spanning tree");
    graph::link(&mut t, "a1", "b1", false).unwrap();

    assert_eq!(
        next_slug(&t),
        Some("a2"),
        "a1 is blocked, so the walk carries on to its sibling"
    );
    let next = next(&t).unwrap();
    assert_eq!(next.head.slug, "a2");
    assert_eq!(next.state, State::Ready);
    assert_eq!(next.ancestors, vec!["root".to_string(), "a".to_string()]);
}

#[test]
fn changing_seq_changes_next() {
    let mut t = fanned();
    answer(&mut t, "root", "x");
    answer(&mut t, "a", "x");
    assert_eq!(next_slug(&t), Some("a1"));

    let (a1, a2) = (at(&t, "a1").seq, at(&t, "a2").seq);
    t.heads.get_mut("a1").unwrap().seq = a2;
    t.heads.get_mut("a2").unwrap().seq = a1;
    assert_eq!(
        next_slug(&t),
        Some("a2"),
        "document order, not priority"
    );
}

#[test]
fn next_is_none_when_nothing_can_be_asked() {
    assert_eq!(next_slug(&tree()), None, "empty tree");

    let mut t = fanned();
    for slug in ["a1", "a2", "b1", "a", "b", "root"] {
        answer(&mut t, slug, "x");
    }
    assert!(is_done(&t));
    assert_eq!(next_slug(&t), None);

    graph::reopen(&mut t, "a1").unwrap();
    graph::link(&mut t, "a1", "a1", true).unwrap();
    assert!(!is_done(&t));
    assert_eq!(next_slug(&t), None);

    let mut t = fanned();
    for slug in ["a1", "a2", "b1", "a", "b", "root"] {
        answer(&mut t, slug, "x");
    }
    graph::reopen(&mut t, "b1").unwrap();
    t.heads
        .get_mut("b1")
        .unwrap()
        .set_blocked_by(vec!["ghost".to_string()]);
    assert!(!is_done(&t));
    assert_eq!(next_slug(&t), None);
    assert!(resume(&t).hydrated.is_empty());
}

#[test]
fn skeleton_summary_is_the_first_line_only() {
    let mut t = fanned();
    answer(
        &mut t,
        "root",
        "spanning tree + blocked_by cross edges\nnesting carries the narrative\nand more",
    );
    let rows = skeleton(&t);
    let root = &rows[0];
    assert_eq!(root.slug, "root");
    assert_eq!(
        root.summary.as_deref(),
        Some("spanning tree + blocked_by cross edges")
    );
    assert_eq!(root.status, Status::Answered);
    assert_eq!(root.prior_summary, None);

    assert_eq!(rows[1].slug, "a");
    assert_eq!(
        rows[1].summary, None,
        "an open head has no answer to line up"
    );
    assert_eq!(rows.len(), t.heads.len(), "every head, in pre-order");
    assert_eq!(
        rows.iter().map(|r| r.slug.as_str()).collect::<Vec<_>>(),
        slugs(&t)
    );
}

#[test]
fn skeleton_falls_back_to_prior_for_a_reopened_head() {
    let mut t = fanned();
    answer(&mut t, "root", "CLI unix tool");
    answer(&mut t, "a", "spanning tree\nwith cross edges");
    answer(&mut t, "root", "an MCP shim as well");

    let rows = skeleton(&t);
    let a = rows.iter().find(|r| r.slug == "a").unwrap();
    assert_eq!(a.status, Status::Open, "cascade-reopened");
    assert_eq!(a.summary, None, "nothing is settled here any more");
    assert_eq!(
        a.prior_summary.as_deref(),
        Some("spanning tree"),
        "the old answer is what the LLM re-presents"
    );

    let a1 = rows.iter().find(|r| r.slug == "a1").unwrap();
    assert_eq!(
        (a1.summary.as_deref(), a1.prior_summary.as_deref()),
        (None, None)
    );
}

#[test]
fn skeleton_state_separates_ready_from_blocked_and_cauterised() {
    let mut t = fanned();
    add(&mut t, "killer", None);
    answer(&mut t, "killer", "settled");
    graph::link(&mut t, "b", "a", false).unwrap();
    graph::cauterise(
        &mut t,
        Cauterise {
            slug: "b1",
            by: "killer",
            ..Cauterise::default()
        },
    )
    .unwrap();

    let rows: BTreeMap<String, (Status, State)> = skeleton(&t)
        .into_iter()
        .map(|row| (row.slug, (row.status, row.state)))
        .collect();
    assert_eq!(rows["a"], (Status::Open, State::Ready));
    assert_eq!(
        rows["b"],
        (Status::Open, State::Blocked),
        "both open, and only `state` tells them apart"
    );
    assert_eq!(rows["b1"], (Status::Answered, State::Cauterised));
    assert_eq!(rows["killer"], (Status::Answered, State::Answered));
}

#[test]
fn hydrated_is_next_plus_its_ancestors_root_first() {
    let mut t = fanned();
    answer(&mut t, "root", "CLI unix tool");
    answer(&mut t, "a", "spanning tree");

    let payload = resume(&t);
    assert_eq!(payload.next.as_deref(), Some("a1"));
    assert_eq!(
        payload
            .hydrated
            .iter()
            .map(|d| d.head.slug.as_str())
            .collect::<Vec<_>>(),
        vec!["root", "a", "a1"],
        "premises first, the question last"
    );
    assert_eq!(payload.hydrated[0].state, State::Answered);
    assert_eq!(
        payload.hydrated[0].head.answer.as_ref().unwrap().text,
        "CLI unix tool",
        "full detail, not a summary"
    );
    assert_eq!(payload.hydrated[2].ancestors, vec!["root", "a"]);
    assert_eq!(payload.skeleton.len(), t.heads.len());
}

#[test]
fn resume_of_a_done_tree_is_skeleton_only() {
    let mut t = fanned();
    for slug in ["a1", "a2", "b1", "a", "b", "root"] {
        answer(&mut t, slug, "x");
    }
    let payload = resume(&t);
    assert_eq!(payload.next, None);
    assert!(
        payload.hydrated.is_empty(),
        "no question to ask, so no premises to lay out"
    );
    assert_eq!(payload.skeleton.len(), 6, "the record is still complete");
    assert!(payload.counts.done);
    assert_eq!(payload.counts.open, 0);
}

#[test]
fn resume_of_an_empty_tree_is_empty_and_done() {
    let payload = resume(&tree());
    assert_eq!(payload.next, None);
    assert!(payload.skeleton.is_empty());
    assert!(payload.hydrated.is_empty());
    assert!(
        payload.counts.done,
        "no head is open, vacuously or not"
    );
    assert_eq!(payload.counts.answered, 0);
}

#[test]
fn counts_split_open_and_answered() {
    let mut t = fanned();
    add(&mut t, "killer", None);
    answer(&mut t, "killer", "settled");
    graph::cauterise(
        &mut t,
        Cauterise {
            slug: "a2",
            by: "killer",
            ..Cauterise::default()
        },
    )
    .unwrap();
    graph::link(&mut t, "b1", "a1", false).unwrap();

    let counts = status(&t);
    assert_eq!(counts.tree, "t");
    assert_eq!(counts.answered, 2, "killer and the cauterised a2");
    assert_eq!(counts.cauterised, 1, "a subset of answered, not a state");
    assert_eq!(counts.open, 5);
    assert_eq!(counts.blocked, 1);
    assert_eq!(counts.ready, 4);
    assert!(!counts.done);
    assert_eq!(counts.answered + counts.open, t.heads.len());
}

#[test]
fn show_hydrates_one_head() {
    let mut t = fanned();
    answer(&mut t, "root", "CLI unix tool\nand nothing else");
    graph::link(&mut t, "a1", "b1", false).unwrap();

    let detail = show(&t, "a1").unwrap();
    assert_eq!(detail.state, State::Blocked);
    assert_eq!(detail.open_blockers, vec!["b1".to_string()]);
    assert_eq!(detail.ancestors, vec!["root".to_string(), "a".to_string()]);

    assert_eq!(detail.head.slug, "a1");
    assert_eq!(detail.head.seq, 1);
    assert_eq!(detail.head.prior, None);

    assert!(matches!(
        show(&t, "ghost"),
        Err(Error::UnknownHead { slug }) if slug == "ghost"
    ));
}

#[test]
fn an_answered_head_keeps_the_blockers_it_was_forced_past() {
    let mut t = fanned();
    graph::link(&mut t, "a1", "b1", false).unwrap();
    graph::cut(
        &mut t,
        Cut {
            slug: "a1",
            answer: "decided anyway",
            force: true,
            ..Cut::default()
        },
    )
    .unwrap();

    let detail = show(&t, "a1").unwrap();
    assert_eq!(detail.state, State::Answered);
    assert_eq!(detail.open_blockers, vec!["b1".to_string()]);

    assert!(is_blocked(&t, at(&t, "a1")));
    assert!(!is_ready(&t, at(&t, "a1")));
    assert_eq!(status(&t).blocked, 0, "blocked counts open heads only");
}

#[test]
fn first_lines_end_at_either_kind_of_line_end() {
    for (text, line) in [
        ("", ""),
        ("one", "one"),
        ("one\ntwo", "one"),
        ("one\r\ntwo", "one"),
        ("one\r", "one\r"),
        ("one\rtwo", "one\rtwo"),
        ("\ntwo", ""),
        ("\r\ntwo", ""),
        ("日本語\nで", "日本語"),
    ] {
        assert_eq!(first_line(text), line, "{text:?}");
    }
}

#[test]
fn every_head_is_read_once_even_with_two_cycles() {
    let mut t = fanned();
    t.heads.get_mut("root").unwrap().parent = Some("root".to_string());
    t.heads.get_mut("b").unwrap().parent = Some("b1".to_string());
    let mut walked = slugs(&t);
    walked.sort();
    assert_eq!(walked, vec!["a", "a1", "a2", "b", "b1", "root"]);
}

#[test]
fn resuming_hands_over_the_intent() {
    let t = Tree::with_intent("t".to_string(), "settle the format".to_string());
    assert_eq!(resume(&t).intent, "settle the format");
    assert_eq!(resume(&tree()).intent, "");
}

#[test]
fn a_sound_tree_has_a_next_head_until_it_is_done() {
    let mut t = fanned();
    graph::link(&mut t, "root", "b1", true).unwrap();
    graph::unlink(&mut t, "root", "b1").unwrap();
    let mut rounds = 0;
    while let Some(slug) = next_slug(&t).map(str::to_string) {
        assert!(!is_done(&t));
        answer(&mut t, &slug, "x");
        rounds += 1;
    }
    assert_eq!(rounds, 6);
    assert!(is_done(&t));
}

#[test]
fn subtrees_are_read_whole_and_siblings_by_number() {
    let mut t = tree();
    add(&mut t, "b", None);
    add(&mut t, "a", None);
    add(&mut t, "b-two", Some("b"));
    add(&mut t, "a-one", Some("a"));
    add(&mut t, "b-one", Some("b"));
    add(&mut t, "deep", Some("b-two"));
    // A parent that is not there makes a root, read by its own number.
    add(&mut t, "stray", None);
    t.heads.get_mut("stray").unwrap().parent = Some("gone".to_string());
    assert_eq!(
        depths(&t),
        vec![
            ("b", 0),
            ("b-two", 1),
            ("deep", 2),
            ("b-one", 1),
            ("a", 0),
            ("a-one", 1),
            ("stray", 0),
        ]
    );
}

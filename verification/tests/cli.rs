use hydra::cli::{
    adoption, apply, check_intent, default_slug, has_room_for, head_for_listing, look, parse_reject, read_stdin,
    resolve_stdin, Edit, Listed, Mutation, Output, Query, Stdin,
};
use hydra::complete::{answered_heads, heads, trees, Candidate};
use hydra::error::{code, FAILED, NO_TREE, OK, OPEN, REJECTED};
use hydra::model::{Rejected, Status, Tree};
use hydra::render::Colour;
use hydra::{Edge, Error, Store};

fn s(text: &str) -> String {
    text.to_string()
}

fn sprout(slug: &str, parent: Option<&str>) -> Edit {
    Edit::Sprout {
        question: s("q?"),
        parent: parent.map(s),
        blocked_by: vec![],
        slug: Some(s(slug)),
    }
}

fn cut(slug: &str, answer: &str) -> Edit {
    Edit::Cut {
        slug: s(slug),
        answer: s(answer),
        rationale: None,
        reject: vec![],
        keep_subtree: false,
        force: false,
    }
}

fn tree() -> Tree {
    let mut t = Tree::new(s("t"));
    apply(&mut t, sprout("root", None)).unwrap();
    apply(&mut t, sprout("kid", Some("root"))).unwrap();
    t
}

fn report(tree: &mut Tree, edit: Edit) -> Mutation {
    apply(tree, edit).unwrap()
}

#[test]
fn every_edit_reports_the_tree_it_was_made_in() {
    let mut t = tree();
    let made = report(&mut t, cut("root", "one"));
    assert_eq!((made.tree.as_str(), made.op), ("t", "cut"));
    assert_eq!(made.slug.as_deref(), Some("root"));
    assert!(made.reopened.is_empty());
    assert_eq!((made.counts.answered, made.counts.open), (1, 1));

    report(&mut t, cut("kid", "two"));
    let made = report(&mut t, cut("root", "another"));
    assert_eq!(made.reopened, vec!["kid"]);

    let made = report(&mut t, Edit::Reopen { slug: s("root") });
    assert_eq!(made.op, "reopen");
    assert!(made.reopened.is_empty());

    let made = report(
        &mut t,
        Edit::Reword {
            slug: s("kid"),
            question: s("better?"),
        },
    );
    assert_eq!(made.op, "reword");
    assert_eq!(t.heads.get("kid").unwrap().question, "better?");

    let made = report(
        &mut t,
        Edit::Reparent {
            slug: s("kid"),
            parent: s(""),
        },
    );
    assert_eq!(made.op, "reparent");
    assert_eq!(t.heads.get("kid").unwrap().parent, None);
    report(
        &mut t,
        Edit::Reparent {
            slug: s("kid"),
            parent: s("root"),
        },
    );
    assert_eq!(t.heads.get("kid").unwrap().parent.as_deref(), Some("root"));

    let made = report(
        &mut t,
        Edit::Link {
            slug: s("kid"),
            blocked_by: s("root"),
            force: false,
        },
    );
    assert_eq!(made.op, "link");
    assert_eq!(made.counts.blocked, 1);
    let made = report(
        &mut t,
        Edit::Unlink {
            slug: s("kid"),
            blocked_by: s("root"),
        },
    );
    assert_eq!(made.op, "unlink");
    assert_eq!(made.counts.blocked, 0);

    report(&mut t, cut("root", "settled"));
    let made = report(
        &mut t,
        Edit::Cauterise {
            slug: s("kid"),
            by: s("root"),
            why: Some(s("moot")),
            force: false,
        },
    );
    assert_eq!((made.op, made.counts.cauterised), ("cauterise", 1));
    assert!(made.counts.done);
}

#[test]
fn a_refused_edit_changes_nothing() {
    let mut t = tree();
    let before = t.clone();
    assert!(matches!(
        apply(&mut t, sprout("root", None)),
        Err(Error::DuplicateSlug { slug }) if slug == "root"
    ));
    assert!(matches!(
        apply(&mut t, cut("ghost", "x")),
        Err(Error::UnknownHead { slug }) if slug == "ghost"
    ));
    assert_eq!(t, before);
}

#[test]
fn a_question_of_several_lines_is_filed_under_its_first() {
    let mut t = tree();
    let ask = |question: &str| Edit::Sprout {
        question: s(question),
        parent: None,
        blocked_by: vec![s("root")],
        slug: None,
    };
    let made = report(&mut t, ask("How many heads?\nAnd how many tails?"));
    assert_eq!(made.slug.as_deref(), Some("how-many-heads"));
    let head = t.heads.get("how-many-heads").unwrap();
    assert_eq!(head.question, "How many heads?\nAnd how many tails?");
    assert_eq!(head.blocked_by, vec!["root"]);

    let made = report(&mut t, ask("How many heads?"));
    assert_eq!(made.slug.as_deref(), Some("how-many-heads-2"));
    assert!(matches!(
        apply(&mut t, ask("How many heads?\nAgain")),
        Err(Error::DuplicateSlug { slug }) if slug == "how-many-heads"
    ));
}

#[test]
fn counters_at_their_end_are_seen() {
    let mut t = tree();
    assert!(has_room_for(&t, &sprout("x", None)));
    assert!(has_room_for(&t, &cut("ghost", "x")));
    t.heads.get_mut("root").unwrap().seq = u32::MAX;
    t.heads.get_mut("kid").unwrap().rev = u32::MAX;
    assert!(!has_room_for(&t, &sprout("x", None)));
    assert!(has_room_for(&t, &sprout("x", Some("root"))));
    assert!(!has_room_for(&t, &cut("kid", "x")));
    assert!(has_room_for(&t, &cut("root", "x")));
    assert!(!has_room_for(
        &t,
        &Edit::Reparent {
            slug: s("kid"),
            parent: s("")
        }
    ));
    assert!(has_room_for(
        &t,
        &Edit::Reparent {
            slug: s("root"),
            parent: s("")
        }
    ));
}

#[test]
fn a_refused_edit_needs_no_room() {
    let mut t = tree();
    report(&mut t, cut("root", "x"));
    t.heads.get_mut("root").unwrap().seq = u32::MAX;
    t.heads.get_mut("kid").unwrap().rev = u32::MAX;
    assert!(!has_room_for(&t, &cut("kid", "x")));
    assert!(!has_room_for(&t, &sprout("x", None)));

    t.heads.get_mut("kid").unwrap().blocked_by = vec![s("other")];
    report(&mut t, sprout("other", Some("root")));
    let edits = [
        cut("kid", "x"),
        sprout("Not A Slug", None),
        sprout("root", None),
        Edit::Reparent {
            slug: s("ghost"),
            parent: s(""),
        },
    ];
    for edit in edits {
        assert!(has_room_for(&t, &edit), "{edit:?}");
        let before = t.clone();
        assert!(apply(&mut t, edit).is_err());
        assert_eq!(t, before);
    }
}

#[test]
fn trees_are_listed_where_none_is_active() {
    assert_eq!(head_for_listing(Ok(s("t"))).unwrap(), Some(s("t")));
    assert_eq!(head_for_listing(Err(Error::HeadUnset)).unwrap(), None);
    assert!(matches!(
        head_for_listing(Err(Error::MalformedSlug { slug: s("No") })),
        Err(Error::MalformedSlug { slug }) if slug == "No"
    ));
}

#[test]
fn looks_show_and_exit() {
    let mut t = tree();
    match look(&t, Query::Status) {
        Ok((Output::Counts(counts), exit)) => {
            assert_eq!((counts.open, exit), (2, OPEN));
        }
        other => panic!("{other:?}"),
    }
    match look(&t, Query::Ready) {
        Ok((Output::Rows(rows), exit)) => {
            assert_eq!((rows.len(), exit), (2, OK));
        }
        other => panic!("{other:?}"),
    }
    match look(&t, Query::Next) {
        Ok((Output::Detail(Some(detail)), exit)) => {
            assert_eq!((detail.head.slug.as_str(), exit), ("root", OK));
        }
        other => panic!("{other:?}"),
    }
    match look(&t, Query::Show(s("kid"))) {
        Ok((Output::Detail(Some(detail)), _)) => assert_eq!(detail.ancestors, vec!["root"]),
        other => panic!("{other:?}"),
    }
    assert!(matches!(
        look(&t, Query::Show(s("ghost"))),
        Err(Error::UnknownHead { slug }) if slug == "ghost"
    ));
    match look(&t, Query::Resume) {
        Ok((Output::Resume(resume), _)) => assert_eq!(resume.next.as_deref(), Some("root")),
        other => panic!("{other:?}"),
    }
    match look(&t, Query::Tree(Colour::Plain)) {
        Ok((Output::Drawing(drawing), _)) => {
            assert!(drawing.starts_with("t  (0 answered, 2 open)\n"))
        }
        other => panic!("{other:?}"),
    }
    apply(&mut t, cut("root", "x")).unwrap();
    apply(&mut t, cut("kid", "x")).unwrap();
    assert!(matches!(
        look(&t, Query::Next),
        Ok((Output::Detail(None), OK))
    ));
    assert!(matches!(look(&t, Query::Status), Ok((_, OK))));
}

#[test]
fn a_tree_that_cannot_be_read_is_listed_with_the_reason() {
    let row = Listed::read(s("t"), &Ok(tree()), Some("t"));
    assert!(row.current);
    assert_eq!(row.counts.unwrap().open, 2);
    assert_eq!(row.error, None);

    let broken = Err(Error::UnknownTree { slug: s("gone") });
    let row = Listed::read(s("gone"), &broken, Some("t"));
    assert!(!row.current);
    assert_eq!(row.counts, None);
    assert_eq!(row.error.as_deref(), Some("unknown tree 'gone'"));
    assert!(!Listed::read(s("t"), &broken, None).current);
}

#[test]
fn one_field_at_most_reads_stdin() {
    let fields = |list: &[(&'static str, &str)]| {
        list.iter()
            .map(|(flag, value)| (*flag, s(value)))
            .collect::<Vec<(&'static str, String)>>()
    };
    assert!(matches!(
        resolve_stdin(&fields(&[("--answer", "x"), ("--rationale", "--")])),
        Stdin::Unused
    ));
    assert!(matches!(
        resolve_stdin(&fields(&[("--answer", "x"), ("--rationale", "-")])),
        Stdin::Fills(1)
    ));
    assert!(matches!(resolve_stdin(&fields(&[])), Stdin::Unused));
    match resolve_stdin(&fields(&[("--answer", "-"), ("--rationale", "-")])) {
        Stdin::Contested(message) => assert_eq!(
            message,
            "only one field can read stdin, and --answer and --rationale both ask for -"
        ),
        other => panic!("{other:?}"),
    }
}

#[test]
fn stdin_loses_the_white_space_at_its_end() {
    assert_eq!(
        read_stdin("--answer", "  one\n two \n\n").as_deref(),
        Ok("  one\n two")
    );
    assert_eq!(
        read_stdin("--answer", " \n\t\u{3000}"),
        Err(s("--answer - was given, but stdin was empty"))
    );
}

#[test]
fn rejected_options_are_split_at_the_first_colon() {
    assert_eq!(
        parse_reject(" GUI : nobody will script it: ever "),
        Ok(Rejected {
            option: s("GUI"),
            why_not: s("nobody will script it: ever"),
        })
    );
    assert_eq!(
        parse_reject("no \"colon\""),
        Err(s(
            "expected \"<option>: <why>\", got \"no \\\"colon\\\"\": no ':' to split on"
        ))
    );
    assert_eq!(
        parse_reject(" : why"),
        Err(s(
            "expected \"<option>: <why>\", got \" : why\": the option is empty"
        ))
    );
    assert_eq!(
        parse_reject("option:\n"),
        Err(s(
            "expected \"<option>: <why>\", got \"option:\\n\": the reason is empty"
        ))
    );
}

#[test]
fn a_new_tree_is_named_after_its_directory() {
    assert_eq!(default_slug(Some("My Project")), "my-project");
    assert_eq!(default_slug(Some("日本語")), "hydra");
    assert_eq!(default_slug(None), "hydra");
}

#[test]
fn a_blank_intent_is_refused() {
    assert_eq!(check_intent("settle the format"), Ok(()));
    assert_eq!(
        check_intent(" \n"),
        Err(s("--intent is blank: say what the interview is for"))
    );
}

#[test]
fn a_store_above_is_announced() {
    let store = Store::init("/repo");
    assert_eq!(adoption(&store, "/repo"), None);
    assert_eq!(
        adoption(&store, "/repo/src").as_deref(),
        Some("using the store at /repo/.hydra")
    );
}

#[test]
fn completion_lists_heads_in_reading_order() {
    let mut t = tree();
    apply(&mut t, sprout("aside", None)).unwrap();
    apply(&mut t, cut("kid", "x")).unwrap();
    assert_eq!(
        heads(&t),
        vec![
            Candidate {
                value: s("root"),
                help: Some(s("○ q?")),
                order: 0
            },
            Candidate {
                value: s("kid"),
                help: Some(s("● q?")),
                order: 1
            },
            Candidate {
                value: s("aside"),
                help: Some(s("○ q?")),
                order: 2
            },
        ]
    );
    assert_eq!(
        answered_heads(&t),
        vec![Candidate {
            value: s("kid"),
            help: Some(s("● q?")),
            order: 0
        }]
    );
}

#[test]
fn completion_describes_trees_by_their_intent() {
    let found = vec![
        (s("a"), Some(s("settle it\nand more"))),
        (s("b"), Some(s(""))),
        (s("c"), None),
    ];
    assert_eq!(
        trees(&found),
        vec![
            Candidate {
                value: s("a"),
                help: Some(s("settle it")),
                order: 0
            },
            Candidate {
                value: s("b"),
                help: None,
                order: 1
            },
            Candidate {
                value: s("c"),
                help: None,
                order: 2
            },
        ]
    );
}

#[test]
fn every_error_has_a_message_and_a_code() {
    let path = || vec![s("a"), s("b"), s("a")];
    let cases: Vec<(Error, &str, i32)> = vec![
        (
            Error::Io {
                path: s("p"),
                source: s("denied"),
            },
            "p: denied",
            FAILED,
        ),
        (
            Error::Json {
                path: s("p"),
                source: s("eof"),
            },
            "p: malformed JSON: eof",
            FAILED,
        ),
        (
            Error::NoStore { start: s("/x") },
            "no .hydra directory in /x or any parent",
            NO_TREE,
        ),
        (
            Error::HeadUnset,
            "no active tree: .hydra/HEAD is missing",
            NO_TREE,
        ),
        (
            Error::UnknownTree { slug: s("a") },
            "unknown tree 'a'",
            NO_TREE,
        ),
        (
            Error::TreeExists { slug: s("a") },
            "tree 'a' already exists",
            NO_TREE,
        ),
        (
            Error::UnsupportedVersion {
                path: s("p"),
                found: 20,
                expected: 1,
            },
            "p: tree format version 20, expected 1",
            NO_TREE,
        ),
        (
            Error::MalformedSlug { slug: s("A b") },
            "malformed slug 'A b': expected ^[a-z0-9][a-z0-9-]*$",
            REJECTED,
        ),
        (
            Error::DuplicateSlug { slug: s("a") },
            "duplicate slug 'a'",
            REJECTED,
        ),
        (
            Error::LockTimeout { path: s("p") },
            "timed out waiting for the lock on p",
            FAILED,
        ),
        (
            Error::UnknownHead { slug: s("a") },
            "unknown head 'a'",
            REJECTED,
        ),
        (
            Error::UnknownParent {
                slug: s("a"),
                parent: s("b"),
            },
            "'a' cannot go under 'b': no such head",
            REJECTED,
        ),
        (
            Error::UnknownBlocker {
                slug: s("a"),
                blocked_by: s("b"),
            },
            "'a' cannot be blocked by 'b': no such head",
            REJECTED,
        ),
        (
            Error::BlockCycle {
                slug: s("a"),
                blocked_by: s("b"),
                path: path(),
            },
            "blocking 'a' by 'b' would close a cycle: a -> b -> a",
            REJECTED,
        ),
        (
            Error::ParentCycle {
                slug: s("a"),
                parent: s("b"),
                path: vec![s("a"), s("b")],
            },
            "moving 'a' under 'b' would make it its own ancestor: a -> b",
            REJECTED,
        ),
        (
            Error::ReopenCycle {
                slug: s("a"),
                edge: Edge::BlockedBy,
                other: s("b"),
                path: path(),
            },
            "the blocked_by edge from 'a' to 'b' would close a cycle in the cascade: a -> b -> a",
            REJECTED,
        ),
        (
            Error::BlockedCut {
                slug: s("a"),
                blockers: vec![s("b"), s("c")],
            },
            "'a' is held back by unanswered heads: b, c",
            REJECTED,
        ),
        (
            Error::IllegalTransition {
                slug: s("a"),
                from: Status::Open,
                to: Status::Answered,
            },
            "'a' cannot go from open to answered",
            REJECTED,
        ),
        (
            Error::CauteriseByUnanswered {
                slug: s("a"),
                by: s("b"),
            },
            "'a' cannot be cauterised by 'b', which is not answered",
            REJECTED,
        ),
        (
            Error::SelfCauterise { slug: s("a") },
            "'a' cannot be cauterised by itself",
            REJECTED,
        ),
    ];
    for (error, message, exit) in cases {
        assert_eq!(error.message(), message);
        assert_eq!(code(&error), exit, "{message}");
    }
    assert_eq!(Edge::Parent.name(), "parent");
}

#[test]
fn a_tree_is_made_the_active_one() {
    let store = Store::init("/repo");
    let (write, report) = store.activate("use", "t", &tree()).unwrap();
    assert_eq!(write.path, "/repo/.hydra/HEAD");
    assert_eq!(write.contents, "t\n");
    assert_eq!((report.op, report.tree.as_str()), ("use", "t"));
    assert_eq!(report.slug, None);
    assert!(report.reopened.is_empty());
    assert_eq!(report.counts.open, 2);
    assert!(matches!(
        store.activate("use", "../t", &tree()),
        Err(Error::MalformedSlug { slug }) if slug == "../t"
    ));
}

use hydra::cli::Edit;
use hydra::model::{now, Head, Status, Tree, FIRST_SECOND, LAST_SECOND};
use hydra::paths::{ancestors, join, parent};
use hydra::store::{lock_step, trees, Attempt, Found, LockStep, LOCK_TIMEOUT};
use hydra::{Error, Store};
use std::path::Path;
use ulid::Ulid;

fn texts(list: &[&str]) -> Vec<String> {
    list.iter().map(|text| text.to_string()).collect()
}

fn sprout(slug: &str) -> Edit {
    Edit::Sprout {
        question: format!("question for {slug}?"),
        parent: None,
        blocked_by: vec![],
        slug: Some(slug.to_string()),
    }
}

fn head(slug: &str, seq: u32) -> Head {
    Head {
        id: Ulid::generate(),
        slug: slug.to_string(),
        question: format!("question for {slug}?"),
        parent: None,
        seq,
        blocked_by: vec![],
        status: Status::Open,
        rev: 0,
        created_at: now(),
        updated_at: now(),
        answer: None,
        prior: None,
    }
}

#[test]
fn discovery_walks_up() {
    let holding = texts(&["/", "/repo", "/repo/x", "/elsewhere"]);
    assert_eq!(
        Store::discover_from("/repo/a/b/c", &holding).unwrap().dir(),
        Store::init("/repo").dir(),
        "should find .hydra from a nested cwd"
    );
    for (start, dir) in [
        ("/repo", "/repo/.hydra"),
        ("/repo/x", "/repo/x/.hydra"),
        ("/repo/x/y/", "/repo/x/.hydra"),
        ("/repository", "/.hydra"),
    ] {
        assert_eq!(Store::discover_from(start, &holding).unwrap().dir(), dir);
    }
}

#[test]
fn missing_store_is_a_typed_error() {
    for holding in [texts(&[]), texts(&["/empty/below", "empty"])] {
        match Store::discover_from("/empty", &holding) {
            Err(Error::NoStore { start }) => assert_eq!(start, "/empty"),
            other => panic!("expected NoStore, got {other:?}"),
        }
    }
}

#[test]
fn ancestors_are_those_of_the_standard_library() {
    let pieces = ["", "/", "//", "a", "bc", ".", "..", "./", "/.", ".x", "é/", "a/b"];
    for a in pieces {
        for b in pieces {
            for c in pieces {
                for d in pieces {
                    let path = format!("{a}{b}{c}{d}");
                    let expected: Vec<String> = Path::new(&path)
                        .ancestors()
                        .map(|above| above.to_str().unwrap().to_string())
                        .collect();
                    assert_eq!(ancestors(&path), expected, "{path:?}");
                    assert_eq!(
                        parent(&path).as_deref(),
                        Path::new(&path).parent().map(|up| up.to_str().unwrap()),
                        "{path:?}"
                    );
                    let joined = Path::new(&path).join("name");
                    assert_eq!(join(&path, "name"), joined.to_str().unwrap());
                }
            }
        }
    }
    assert_eq!(ancestors("/a/b"), texts(&["/a/b", "/a", "/"]));
    assert_eq!(ancestors("./a//b/."), texts(&["./a//b/.", "./a", ".", ""]));
}

#[test]
fn paths_are_within_the_directory() {
    let store = Store::init("/repo");
    assert_eq!(store.dir(), "/repo/.hydra");
    assert_eq!(store.head_path(), "/repo/.hydra/HEAD");
    assert_eq!(store.tree_path("t"), "/repo/.hydra/t.json");
    assert_eq!(store.lock_path("t"), "/repo/.hydra/t.lock");
    assert_eq!(store.grill_path(), "/repo/.hydra/grill");
    assert_eq!(store.tree_path("/x"), "/x.json");
    assert_eq!(store.lock_path("/x"), "/x.lock");
    assert_eq!(Store::init("/").dir(), "/.hydra");
    assert_eq!(Store::init("").dir(), ".hydra");
    assert_eq!(store.clone().dir(), store.dir());
}

#[test]
fn head_round_trips() {
    let store = Store::init("/repo");
    assert!(matches!(Store::head(None), Err(Error::HeadUnset)));
    for slug in ["hydra-design", "other-tree"] {
        let write = store.set_head(slug).unwrap();
        assert_eq!(write.path, store.head_path());
        assert_eq!(Store::head(Some(&write.contents)).unwrap(), slug);
    }
}

#[test]
fn head_rejects_malformed_slug() {
    let store = Store::init("/repo");
    assert!(matches!(
        store.set_head("Not A Slug"),
        Err(Error::MalformedSlug { .. })
    ));
    assert!(matches!(
        Store::head(Some("Not A Slug\n")),
        Err(Error::MalformedSlug { slug }) if slug == "Not A Slug"
    ));
}

#[test]
fn create_refuses_to_clobber() {
    let made = Store::create("hydra-design", "why", false).unwrap();
    assert_eq!(made.slug, "hydra-design");
    assert_eq!(made.intent, "why");
    assert!(made.heads.is_empty());
    assert!(matches!(
        Store::create("hydra-design", "why", true),
        Err(Error::TreeExists { slug }) if slug == "hydra-design"
    ));
    assert!(matches!(
        Store::create("No", "why", true),
        Err(Error::MalformedSlug { slug }) if slug == "No"
    ));
}

#[test]
fn a_created_tree_loads_and_is_saved_under_its_slug() {
    let store = Store::init("/repo");
    let made = Store::create("hydra-design", "why", false).unwrap();
    assert_eq!(store.save(&made).unwrap(), "/repo/.hydra/hydra-design.json");
    let back = store
        .load("hydra-design", Found::Tree(made.clone()))
        .unwrap();
    assert_eq!(back, made);

    let odd = Tree::new("../x".to_string());
    assert!(matches!(
        store.save(&odd),
        Err(Error::MalformedSlug { slug }) if slug == "../x"
    ));
}

#[test]
fn future_version_is_a_typed_error() {
    let store = Store::init("/repo");
    let mut later = Tree::new("hydra-design".to_string());
    later.version = 2;
    match store.load("hydra-design", Found::Tree(later.clone())) {
        Err(Error::UnsupportedVersion {
            found,
            expected,
            path,
        }) => {
            assert_eq!((found, expected), (2, hydra::model::VERSION));
            assert_eq!(path, "/repo/.hydra/hydra-design.json");
        }
        other => panic!("expected UnsupportedVersion, got {:?}", other.map(|_| ())),
    }
    assert!(store
        .with_tree_mut("hydra-design", Found::Tree(later.clone()), |_| Ok(()))
        .is_err());
    assert!(matches!(
        store.with_tree_mut("hydra-design", Found::Tree(later.clone()), |_| -> Result<
            (),
            Error,
        > { unreachable!() }),
        Err(Error::UnsupportedVersion { .. })
    ));
    assert!(matches!(
        store.edit_tree("hydra-design", Found::Tree(later), sprout("a")),
        Err(Error::UnsupportedVersion { .. })
    ));
}

#[test]
fn load_of_unknown_tree_is_a_typed_error() {
    let store = Store::init("/repo");
    assert!(matches!(
        store.load("nope", Found::Missing),
        Err(Error::UnknownTree { slug }) if slug == "nope"
    ));
    assert!(matches!(
        store.with_tree_mut("nope", Found::Missing, |_| Ok(())),
        Err(Error::UnknownTree { .. })
    ));
    assert!(matches!(
        store.edit_tree("nope", Found::Missing, sprout("a")),
        Err(Error::UnknownTree { .. })
    ));
}

#[test]
fn malformed_json_is_a_typed_error() {
    let store = Store::init("/repo");
    assert!(matches!(
        store.load("broken", Found::Malformed("key must be a string".to_string())),
        Err(Error::Json { path, source })
            if path == "/repo/.hydra/broken.json" && source == "key must be a string"
    ));
    assert!(matches!(
        store.load("broken", Found::Unreadable("denied".to_string())),
        Err(Error::Io { path, source }) if path == "/repo/.hydra/broken.json" && source == "denied"
    ));
    assert!(matches!(
        store.load("Broken", Found::Missing),
        Err(Error::MalformedSlug { .. })
    ));
}

#[test]
fn with_tree_mut_persists_and_releases_the_lock() {
    let store = Store::init("/repo");
    let mut on_disk = Store::create("hydra-design", "", false).unwrap();
    for slug in ["graph-shape", "storage-format"] {
        let ((), tree) = store
            .with_tree_mut("hydra-design", Found::Tree(on_disk), |t| {
                let seq = t.heads.len() as u32 + 1;
                t.heads.insert(slug.to_string(), head(slug, seq));
                Ok(())
            })
            .unwrap();
        assert_eq!(store.save(&tree).unwrap(), store.tree_path("hydra-design"));
        on_disk = tree;
    }

    let loaded = store
        .load("hydra-design", Found::Tree(on_disk))
        .unwrap();
    assert_eq!(loaded.heads.len(), 2);
    assert_eq!(loaded.heads.get("storage-format").unwrap().seq, 2);
}

#[test]
fn with_tree_mut_does_not_save_when_the_closure_fails() {
    let store = Store::init("/repo");
    let mut on_disk = Store::create("hydra-design", "", false).unwrap();
    let found = Found::Tree(on_disk.clone());
    let err = store.with_tree_mut("hydra-design", found, |t| {
        t.heads
            .insert("graph-shape".to_string(), head("graph-shape", 1));
        Err::<(), _>(Error::DuplicateSlug {
            slug: "graph-shape".to_string(),
        })
    });
    // What is on disk is replaced by the tree that was handed back, if one was.
    let failed = match err {
        Ok((_, tree)) => {
            on_disk = tree;
            None
        }
        Err(e) => Some(e),
    };
    assert!(matches!(failed, Some(Error::DuplicateSlug { .. })));
    assert!(store
        .load("hydra-design", Found::Tree(on_disk))
        .unwrap()
        .heads
        .is_empty());
}

#[test]
fn a_change_that_cannot_be_saved_is_refused() {
    let store = Store::init("/repo");
    let on_disk = Store::create("hydra-design", "", false).unwrap();
    let out = store.with_tree_mut("hydra-design", Found::Tree(on_disk.clone()), |t| {
        t.slug = "../x".to_string();
        Ok(7)
    });
    assert!(matches!(out, Err(Error::MalformedSlug { slug }) if slug == "../x"));

    let (value, moved) = store
        .with_tree_mut("hydra-design", Found::Tree(on_disk), |t| {
            t.slug = "other".to_string();
            Ok(7)
        })
        .unwrap();
    assert_eq!(value, 7);
    assert_eq!(store.save(&moved).unwrap(), "/repo/.hydra/other.json");
    assert_eq!(store.load("other", Found::Tree(moved.clone())).unwrap(), moved);

    let odd = Tree::new("No".to_string());
    assert!(matches!(
        store.edit_tree("hydra-design", Found::Tree(odd), sprout("a")),
        Err(Error::MalformedSlug { slug }) if slug == "No"
    ));
}

#[test]
fn edits_are_kept_or_leave_nothing_to_write() {
    let store = Store::init("/repo");
    let mut on_disk = Store::create("hydra-design", "", false).unwrap();
    for slug in ["graph-shape", "storage-format"] {
        let (report, tree) = store
            .edit_tree("hydra-design", Found::Tree(on_disk), sprout(slug))
            .unwrap();
        assert_eq!(report.slug.as_deref(), Some(slug));
        on_disk = tree;
    }
    let loaded = store
        .load("hydra-design", Found::Tree(on_disk.clone()))
        .unwrap();
    assert_eq!(loaded, on_disk);
    assert_eq!(loaded.heads.get("storage-format").unwrap().seq, 2);

    let err = store.edit_tree("hydra-design", Found::Tree(on_disk), sprout("graph-shape"));
    assert!(matches!(err, Err(Error::DuplicateSlug { slug }) if slug == "graph-shape"));
}

#[test]
fn stamps_are_whole_seconds_that_can_be_named() {
    let made = Store::create("hydra-design", "", false).unwrap();
    let (_, edited) = Store::init("/repo")
        .edit_tree("hydra-design", Found::Tree(made.clone()), sprout("a"))
        .unwrap();
    let sprouted = edited.heads.get("a").unwrap();
    for at in [made.created_at, sprouted.created_at, sprouted.updated_at] {
        assert_eq!(at.subsec_nanosecond(), 0);
        assert!(FIRST_SECOND <= at.second && at.second <= LAST_SECOND);
    }
}

#[test]
fn contended_lock_times_out() {
    let path = "/repo/.hydra/hydra-design.lock";
    assert!(matches!(
        lock_step(Attempt::Taken, 0, LOCK_TIMEOUT, path),
        LockStep::Proceed
    ));
    assert!(matches!(
        lock_step(Attempt::Busy, 0, 50, path),
        LockStep::Retry
    ));
    assert!(matches!(
        lock_step(Attempt::Busy, 49, 50, path),
        LockStep::Retry
    ));
    match lock_step(Attempt::Busy, 50, 50, path) {
        LockStep::GiveUp(Error::LockTimeout { path: p }) => assert_eq!(p, path),
        other => panic!("expected LockTimeout, got {other:?}"),
    }
    match lock_step(Attempt::Failed("no".to_string()), 0, 50, path) {
        LockStep::GiveUp(Error::Io { path: p, source }) => {
            assert_eq!((p.as_str(), source.as_str()), (path, "no"))
        }
        other => panic!("expected Io, got {other:?}"),
    }
    assert!(matches!(
        lock_step(Attempt::Taken, 60, 50, path),
        LockStep::Proceed
    ));
}

#[test]
fn only_the_files_of_trees_are_listed() {
    let names: Vec<String> = [
        "HEAD",
        "b.json",
        "a.json",
        "a.lock",
        "grill",
        ".json",
        "Not A Slug.json",
        "c.json.bak",
        "json",
        "a-2.json",
    ]
    .iter()
    .map(|name| name.to_string())
    .collect();
    assert_eq!(trees(&names), vec!["a", "a-2", "b"]);
    assert!(trees(&vec![]).is_empty());
}

use hydra::graph::{self, Cauterise, Cut, Sprout};
use hydra::model::Tree;
use hydra::render::{colour_for, render, Colour};


fn add(tree: &mut Tree, slug: &str, parent: Option<&str>) {
    graph::sprout(
        tree,
        Sprout {
            question: "q?",
            parent,
            slug: Some(slug),
            ..Sprout::default()
        },
    )
    .unwrap();
}

fn cut(tree: &mut Tree, slug: &str, parent: Option<&str>, answer: &str) {
    add(tree, slug, parent);
    graph::cut(
        tree,
        Cut {
            slug,
            answer,
            force: true,
            ..Cut::default()
        },
    )
    .unwrap();
}

fn plain(tree: &Tree) -> String {
    render(tree, Colour::Plain)
}

fn interview() -> Tree {
    let mut t = Tree::new("hydra-design".to_string());
    cut(&mut t, "consumption-surface", None, "CLI unix tool");
    cut(
        &mut t,
        "graph-shape",
        Some("consumption-surface"),
        "spanning tree + blocked_by",
    );
    cut(
        &mut t,
        "head-schema",
        Some("graph-shape"),
        "answer{text, rationale, rejected}",
    );
    add(&mut t, "lifecycle", Some("graph-shape"));
    cut(
        &mut t,
        "storage-format",
        Some("consumption-surface"),
        "mutable JSON, git = history",
    );
    add(&mut t, "write-model", Some("storage-format"));
    graph::cauterise(
        &mut t,
        Cauterise {
            slug: "write-model",
            by: "storage-format",
            ..Cauterise::default()
        },
    )
    .unwrap();
    add(&mut t, "resume-shape", Some("storage-format"));
    graph::link(&mut t, "resume-shape", "lifecycle", false).unwrap();
    t
}

#[test]
fn matches_the_spec_example() {
    let expected = "\
hydra-design  (5 answered, 2 open)
└── ● consumption-surface    CLI unix tool
    ├── ● graph-shape        spanning tree + blocked_by
    │   ├── ● head-schema    answer{text, rationale, rejected}
    │   └── ○ lifecycle      ← next
    └── ● storage-format     mutable JSON, git = history
        ├── ⊘ write-model    cauterised by storage-format
        └── ◌ resume-shape   blocked by lifecycle
";
    assert_eq!(plain(&interview()), expected);
}

fn summary_columns(render: &str) -> Vec<usize> {
    render
        .lines()
        .skip(1)
        .map(|line| {
            let chars: Vec<char> = line.chars().collect();
            let glyph = chars.iter().position(|c| "●○◌⊘".contains(*c)).unwrap();
            let mut at = glyph + 2;
            while chars.get(at).is_some_and(|c| *c != ' ') {
                at += 1;
            }
            while chars.get(at) == Some(&' ') {
                at += 1;
            }
            at
        })
        .collect()
}

#[test]
fn every_summary_starts_in_the_same_column() {
    let columns = summary_columns(&plain(&interview()));
    assert_eq!(
        columns,
        vec![29; 7],
        "the longest label is `        └── ◌ resume-shape` plus the gutter"
    );
}

#[test]
fn a_multibyte_slug_does_not_shift_the_column() {
    let mut t = Tree::new("t".to_string());
    cut(&mut t, "ascii", None, "one");
    cut(&mut t, "placeholder", None, "two");
    let mut head = t.heads.remove("placeholder").unwrap();
    head.slug = "café-über".to_string();
    t.heads.insert(head.slug.clone(), head);

    let out = plain(&t);
    assert_eq!(
        out,
        "\
t  (2 answered, 0 open)
├── ● ascii       one
└── ● café-über   two
"
    );
    assert_eq!(
        summary_columns(&out),
        vec![18; 2],
        "15 characters of longest label plus the gutter, not 19 bytes of it"
    );
}

#[test]
fn multibyte_content_does_not_disturb_the_column() {
    let mut t = Tree::new("hydra-design".to_string());
    cut(&mut t, "one", None, "日本語 で 答え\nsecond line dropped");
    cut(
        &mut t,
        "a-considerably-long",
        None,
        "café ← naïve — em dash",
    );
    add(&mut t, "three", None);

    let out = plain(&t);
    assert_eq!(
        out,
        "\
hydra-design  (2 answered, 1 open)
├── ● one                   日本語 で 答え
├── ● a-considerably-long   café ← naïve — em dash
└── ○ three                 ← next
"
    );
    assert_eq!(summary_columns(&out), vec![28; 3]);
}

#[test]
fn glyphs_follow_the_derived_state() {
    let mut t = Tree::new("t".to_string());
    cut(&mut t, "answered", None, "yes");
    add(&mut t, "ready", None);
    add(&mut t, "blocked", None);
    graph::link(&mut t, "blocked", "ready", false).unwrap();
    add(&mut t, "cauterised", None);
    graph::cauterise(
        &mut t,
        Cauterise {
            slug: "cauterised",
            by: "answered",
            ..Cauterise::default()
        },
    )
    .unwrap();

    assert_eq!(
        plain(&t),
        "\
t  (2 answered, 2 open)
├── ● answered     yes
├── ○ ready        ← next
├── ◌ blocked      blocked by ready
└── ⊘ cauterised   cauterised by answered
"
    );
}

#[test]
fn connectors_close_each_sibling_set_and_carry_the_bars_below_it() {
    let mut t = Tree::new("t".to_string());
    add(&mut t, "a", None);
    add(&mut t, "a1", Some("a"));
    add(&mut t, "deep", Some("a1"));
    add(&mut t, "a2", Some("a"));
    add(&mut t, "b", None);
    add(&mut t, "b1", Some("b"));

    assert_eq!(
        plain(&t),
        "\
t  (0 answered, 6 open)
├── ○ a              ← next
│   ├── ○ a1
│   │   └── ○ deep
│   └── ○ a2
└── ○ b
    └── ○ b1
"
    );
}

#[test]
fn the_next_marker_moves_with_next() {
    let mut t = Tree::new("t".to_string());
    add(&mut t, "first", None);
    add(&mut t, "second", None);

    let out = plain(&t);
    assert!(out.contains("├── ○ first    ← next"), "{out}");
    assert!(
        out.ends_with("└── ○ second\n"),
        "not next, so nothing at all: {out}"
    );

    graph::cut(
        &mut t,
        Cut {
            slug: "first",
            answer: "done",
            ..Cut::default()
        },
    )
    .unwrap();
    let out = plain(&t);
    assert!(out.contains("● first    done"), "{out}");
    assert!(out.contains("○ second   ← next"), "{out}");
}

#[test]
fn a_blocked_head_names_every_open_blocker() {
    let mut t = Tree::new("t".to_string());
    add(&mut t, "gate-a", None);
    add(&mut t, "gate-b", None);
    add(&mut t, "waiting", None);
    graph::link(&mut t, "waiting", "gate-b", false).unwrap();
    graph::link(&mut t, "waiting", "gate-a", false).unwrap();
    t.heads
        .get_mut("waiting")
        .unwrap()
        .blocked_by
        .push("ghost".to_string());

    assert!(
        plain(&t).contains("◌ waiting   blocked by gate-a, gate-b, ghost"),
        "{}",
        plain(&t)
    );
}

#[test]
fn an_empty_tree_renders_the_header_alone() {
    assert_eq!(
        plain(&Tree::new("fresh".to_string())),
        "fresh  (0 answered, 0 open)\n"
    );
}

#[test]
fn a_parent_cycle_renders_every_head_once() {
    let mut t = Tree::new("t".to_string());
    add(&mut t, "a", None);
    add(&mut t, "b", Some("a"));
    add(&mut t, "loose", None);
    t.heads.get_mut("a").unwrap().parent = Some("b".to_string());

    assert_eq!(
        plain(&t),
        "\
t  (0 answered, 3 open)
├── ○ loose   ← next
└── ○ a
    └── ○ b
"
    );
}

fn strip_ansi(text: &str) -> String {
    let mut out = String::new();
    let mut chars = text.chars();
    while let Some(c) = chars.next() {
        if c == '\x1b' {
            for c in chars.by_ref() {
                if c == 'm' {
                    break;
                }
            }
        } else {
            out.push(c);
        }
    }
    out
}

#[test]
fn colour_does_not_move_the_column() {
    let tree = interview();
    assert_eq!(strip_ansi(&render(&tree, Colour::Ansi)), plain(&tree));
}

#[test]
fn a_plain_render_carries_no_escapes() {
    assert!(!plain(&interview()).contains('\x1b'));
}

#[test]
fn ansi_paints_the_state_on_the_glyph_and_dims_the_structure() {
    let out = render(&interview(), Colour::Ansi);
    assert!(
        out.contains("\u{1b}[2m    │   └── \u{1b}[0m\u{1b}[1;36m○\u{1b}[0m lifecycle"),
        "connectors dim, a ready glyph bold cyan, the slug left alone: {out}"
    );
    assert!(
        out.contains("\u{1b}[1m← next\u{1b}[0m"),
        "the marker is the one summary that is not context: {out}"
    );
    assert!(
        out.contains("\u{1b}[32m●\u{1b}[0m consumption-surface    \u{1b}[2mCLI unix tool"),
        "{out}"
    );
    assert!(out.contains("\u{1b}[33m◌\u{1b}[0m resume-shape"), "{out}");
    assert!(out.contains("\u{1b}[2;31m⊘\u{1b}[0m write-model"), "{out}");
}

#[test]
fn a_row_with_no_summary_ends_at_its_slug() {
    let mut t = Tree::new("t".to_string());
    add(&mut t, "first", None);
    add(&mut t, "second", None);

    assert!(render(&t, Colour::Ansi).ends_with("\u{1b}[0m second\n"));
}

#[test]
fn colour_is_for_a_terminal_that_allows_it() {
    assert_eq!(colour_for(true, None), Colour::Ansi);
    assert_eq!(colour_for(true, Some("")), Colour::Ansi);
    assert_eq!(colour_for(true, Some("0")), Colour::Plain);
    assert_eq!(colour_for(false, None), Colour::Plain);
    assert_eq!(colour_for(false, Some("")), Colour::Plain);
    assert_eq!(colour_for(false, Some("1")), Colour::Plain);
}

use hydra::slug::{is_valid, slugify, validate};
use hydra::Error;

#[test]
fn accepts() {
    for slug in [
        "a",
        "0",
        "graph-shape",
        "0abc",
        "9",
        "a-b-c",
        "a--b",
        "a-",
        "a---",
        "consumption-surface-2",
    ] {
        assert!(is_valid(slug), "should accept {slug:?}");
        assert!(validate(slug).is_ok());
    }
}

#[test]
fn rejects() {
    for slug in [
        "",
        "-",
        "-a",
        "--a",
        "A",
        "aB",
        "GRAPH-SHAPE",
        "a_b",
        "a b",
        "a.b",
        "a/b",
        "a:b",
        "graph shape",
        "héllo",
        "café",
        "日本語",
        "🐍",
        "a\n",
        " a",
        "a ",
    ] {
        assert!(!is_valid(slug), "should reject {slug:?}");
        assert!(matches!(validate(slug), Err(Error::MalformedSlug { .. })));
    }
}

#[test]
fn slugify_is_mechanical() {
    let cases = [
        (
            "Strict tree, tree + dep edges, or pure DAG?",
            "strict-tree-tree-dep-edges-or-pure-dag",
        ),
        ("  Hello   World  ", "hello-world"),
        ("ABC", "abc"),
        ("already-a-slug", "already-a-slug"),
        ("snake_case_text", "snake-case-text"),
        ("Ünicode ünder pressure", "nicode-nder-pressure"),
        ("2 heads", "2-heads"),
        ("!!!", ""),
        ("", ""),
    ];
    for (input, expected) in cases {
        assert_eq!(slugify(input), expected, "slugify({input:?})");
    }
}

#[test]
fn slugify_output_validates_when_nonempty() {
    for text in [
        "Strict tree, tree + dep edges, or pure DAG?",
        "-- leading punctuation --",
        "9 lives",
        "日本語 and text",
    ] {
        let slug = slugify(text);
        if !slug.is_empty() {
            assert!(is_valid(&slug), "slugify({text:?}) = {slug:?}");
        }
    }
}

#[test]
fn deriving_a_slug_from_a_slug_changes_nothing() {
    for text in ["a--b", "A b", "-x-", "graph-shape"] {
        let once = slugify(text);
        assert_eq!(slugify(&once), once);
    }
    assert_eq!(slugify("a--b"), "a-b");
}

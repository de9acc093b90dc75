use hydra::graph::{self, Cut, Sprout};
use hydra::grill::{self, Lease};
use hydra::hook::{
    answer as answer_hook, requested, respond, to_json, Event, Payload, Response, Snapshot, BASH,
};
use hydra::json::{quote, Json};
use hydra::model::Tree;
use hydra::query::{self, Detail, Resume};
use hydra::render::{render, Colour};
use std::collections::BTreeMap;

const SESSION: &str = "abc123";

/// What a store holds, in memory. A tree that is `None` is there and cannot be
/// read.
struct Files {
    trees: BTreeMap<String, Option<Tree>>,
    head: Option<String>,
    lease: Option<Lease>,
}

impl Files {
    fn load(&self, slug: &str) -> Option<&Tree> {
        self.trees.get(slug).and_then(|tree| tree.as_ref())
    }

    fn create(&mut self, slug: &str) {
        self.trees
            .insert(slug.to_string(), Some(Tree::new(slug.to_string())));
    }

    fn set_head(&mut self, slug: &str) {
        self.head = Some(slug.to_string());
    }

    fn design(&mut self) -> &mut Tree {
        self.trees.get_mut("hydra-design").unwrap().as_mut().unwrap()
    }

    fn snapshot(&self) -> Snapshot {
        Snapshot::gather(
            self.head.clone(),
            self.lease.clone(),
            |slug| self.load(slug).cloned(),
            resume_json,
            next_json,
        )
    }

    fn respond(&self, event: Event, payload: &Payload) -> Response {
        respond(Some(&self.snapshot()), event, payload)
    }
}

fn object(members: Vec<(&str, serde_json::Value)>) -> serde_json::Value {
    let mut map = serde_json::Map::new();
    for (key, value) in members {
        map.insert(key.to_string(), value);
    }
    serde_json::Value::Object(map)
}

fn resume_json(resume: Resume) -> Option<String> {
    let rows = resume
        .skeleton
        .into_iter()
        .map(|row| object(vec![("slug", row.slug.into())]))
        .collect();
    serde_json::to_string_pretty(&object(vec![(
        "skeleton",
        serde_json::Value::Array(rows),
    )]))
    .ok()
}

fn next_json(next: Detail) -> Option<String> {
    serde_json::to_string_pretty(&object(vec![("slug", next.head.slug.into())])).ok()
}

fn store() -> Files {
    let mut files = Files {
        trees: BTreeMap::new(),
        head: None,
        lease: None,
    };
    files.create("hydra-design");
    files.set_head("hydra-design");
    let tree = files.design();
    add(tree, "consumption-surface", None);
    add(tree, "graph-shape", Some("consumption-surface"));
    answer(tree, "consumption-surface", "CLI unix tool");
    files
}

fn add(tree: &mut Tree, slug: &str, parent: Option<&str>) {
    graph::sprout(
        tree,
        Sprout {
            question: "q?",
            parent,
            slug: Some(slug),
            ..Sprout::default()
        },
    )
    .unwrap();
}

fn answer(tree: &mut Tree, slug: &str, text: &str) {
    graph::cut(
        tree,
        Cut {
            slug,
            answer: text,
            force: true,
            ..Cut::default()
        },
    )
    .unwrap();
}

fn take_lease(store: &mut Files, session_id: &str) {
    let lease = grill::start(&store.lease, session_id, "hydra-design");
    store.lease = Some(lease);
}

fn payload(event: Event) -> Payload {
    Payload {
        session_id: SESSION.to_string(),
        hook_event_name: event.name().to_string(),
        ..Payload::default()
    }
}

fn session_start(source: &str) -> Payload {
    Payload {
        source: source.to_string(),
        ..payload(Event::SessionStart)
    }
}

fn bash(command: &str) -> Payload {
    Payload {
        tool_name: BASH.to_string(),
        command: command.to_string(),
        ..payload(Event::PostToolUse)
    }
}

fn json(store: &Files, event: Event, payload: &Payload) -> String {
    to_json(&store.respond(event, payload))
}

const NOTHING: &str = "{}";

#[test]
fn only_the_exact_event_spellings_are_recognised() {
    assert_eq!(Event::parse("session-start"), Some(Event::SessionStart));
    assert_eq!(Event::parse("post-tool-use"), Some(Event::PostToolUse));
    assert_eq!(Event::parse("stop"), Some(Event::Stop));
    for verb in [
        "Stop",
        "STOP",
        "SessionStart",
        "session_start",
        "sessionstart",
        "pre-compact",
        "stop ",
        " stop",
        "stop extra",
        "",
    ] {
        assert_eq!(Event::parse(verb), None, "{verb:?}");
    }
    assert_eq!(
        Event::parse("stop").unwrap().name(),
        "Stop",
        "the verb hydra is called by and the name the harness checks are not the same string"
    );
}

#[test]
fn a_payload_that_is_not_a_json_object_is_no_payload() {
    for raw in ["", "   ", "{ not json", "[]", "42", r#""a string""#, "null"] {
        assert_eq!(Payload::parse(raw), None, "{raw:?}");
    }
    assert_eq!(
        Payload::parse("{}"),
        Some(Payload::default()),
        "an empty object is a payload with every gate absent"
    );
}

#[test]
fn a_payload_keeps_the_fields_it_can_read_and_ignores_the_rest() {
    let parsed = Payload::parse(
        r#"{
          "session_id": "abc123",
          "transcript_path": "/tmp/t.jsonl",
          "cwd": "/repo",
          "hook_event_name": "PostToolUse",
          "tool_name": "Bash",
          "tool_input": {"command": "hydra cut graph-shape --answer x", "timeout": 5},
          "tool_response": {"stdout": "{}"},
          "permission_mode": "default"
        }"#,
    )
    .unwrap();
    assert_eq!(parsed.session_id, "abc123");
    assert_eq!(parsed.hook_event_name, "PostToolUse");
    assert_eq!(parsed.tool_name, "Bash");
    assert_eq!(parsed.command, "hydra cut graph-shape --answer x");
    assert!(!parsed.stop_hook_active);

    // One field of the wrong type must cost only that field: a hook that
    // stopped gating because `session_id` became a number would start
    // blocking stops in every repo.
    let odd = Payload::parse(
        r#"{"session_id": 7, "hook_event_name": "Stop", "stop_hook_active": true,
            "tool_input": null, "source": ["compact"]}"#,
    )
    .unwrap();
    assert_eq!(odd.session_id, "");
    assert_eq!(odd.hook_event_name, "Stop");
    assert_eq!(odd.source, "");
    assert_eq!(odd.command, "");
    assert!(odd.stop_hook_active);
}

#[test]
fn a_payload_is_read_from_a_value() {
    let text = |t: &str| Json::Text(t.to_string());
    let value = Json::Object(vec![
        ("source".to_string(), text("clear")),
        ("session_id".to_string(), Json::Number),
        ("stop_hook_active".to_string(), Json::Bool(true)),
        (
            "tool_input".to_string(),
            Json::Object(vec![
                ("other".to_string(), Json::List(vec![Json::Null])),
                ("command".to_string(), text("ls")),
            ]),
        ),
    ]);
    let payload = Payload::from_json(&value).unwrap();
    assert_eq!(
        payload,
        Payload {
            source: "clear".to_string(),
            command: "ls".to_string(),
            stop_hook_active: true,
            ..Payload::default()
        }
    );
    assert_eq!(Payload::from_json(&Json::List(vec![])), None);
    assert_eq!(Payload::from_json(&Json::Null), None);
}

#[test]
fn the_verb_must_agree_with_the_event_in_the_payload() {
    let mut store = store();
    take_lease(&mut store, SESSION);
    let stop = Payload {
        hook_event_name: "PreToolUse".to_string(),
        ..payload(Event::Stop)
    };
    assert_eq!(
        json(&store, Event::Stop, &stop),
        NOTHING,
        "a mis-wired hooks.json must not deny somebody's tool call"
    );

    let unnamed = Payload {
        hook_event_name: String::new(),
        ..payload(Event::Stop)
    };
    assert!(
        json(&store, Event::Stop, &unnamed).contains("block"),
        "absent is not a mismatch"
    );
}

#[test]
fn session_start_announces_open_heads_on_startup_and_resume() {
    let mut store = store();
    let expected =
        r#"{"systemMessage":"hydra: 1 open head on 'hydra-design' — /hydra to resume"}"#;
    assert_eq!(
        json(&store, Event::SessionStart, &session_start("startup")),
        expected
    );
    assert_eq!(
        json(&store, Event::SessionStart, &session_start("resume")),
        expected
    );

    add(store.design(), "storage-format", None);
    assert_eq!(
        json(&store, Event::SessionStart, &session_start("startup")),
        r#"{"systemMessage":"hydra: 2 open heads on 'hydra-design' — /hydra to resume"}"#,
        "one head is not plural"
    );
}

#[test]
fn session_start_needs_no_lease_for_the_one_liner() {
    let mut store = store();
    take_lease(&mut store, "some-other-session");
    let anonymous = Payload {
        session_id: String::new(),
        ..session_start("startup")
    };
    assert!(json(&store, Event::SessionStart, &anonymous).contains("1 open head"));
}

#[test]
fn session_start_says_nothing_about_a_done_tree() {
    let mut store = store();
    answer(
        store.design(),
        "graph-shape",
        "spanning tree + blocked_by",
    );
    assert_eq!(
        json(&store, Event::SessionStart, &session_start("startup")),
        NOTHING
    );
}

#[test]
fn session_start_reloads_resume_after_a_compact_or_clear() {
    let mut store = store();
    take_lease(&mut store, SESSION);

    for source in ["compact", "clear"] {
        let response = store.respond(Event::SessionStart, &session_start(source));
        let specific = response.hook_specific_output.as_ref().unwrap();
        assert_eq!(specific.hook_event_name, "SessionStart");
        assert_eq!(
            (
                &response.decision,
                &response.reason,
                &response.system_message
            ),
            (&None, &None, &None),
            "the model is the audience here, not the user"
        );

        let resume = resume_json(query::resume(store.load("hydra-design").unwrap())).unwrap();
        assert!(
            specific.additional_context.ends_with(&resume),
            "the full resume payload, framed by one line\n{}",
            specific.additional_context
        );
        assert!(specific.additional_context.starts_with(&format!(
            "hydra: context was reset ({source}) during an interview on 'hydra-design'."
        )));

        // The envelope keys, spelled out, so renaming one fails here.
        assert_eq!(
            to_json(&response),
            format!(
                r#"{{"hookSpecificOutput":{{"hookEventName":"SessionStart","additionalContext":{}}}}}"#,
                serde_json::to_string(&specific.additional_context).unwrap()
            )
        );
    }
}

#[test]
fn session_start_reloads_the_tree_the_lease_names_not_head() {
    let mut store = store();
    store.create("storage-format");
    take_lease(&mut store, SESSION);
    store.set_head("storage-format");

    let raw = json(&store, Event::SessionStart, &session_start("compact"));
    assert!(
        raw.contains("consumption-surface"),
        "the lease records its tree so a reload survives HEAD moving\n{raw}"
    );
}

#[test]
fn the_compact_reload_needs_a_lease_that_matches() {
    let mut store = store();
    assert_eq!(
        json(&store, Event::SessionStart, &session_start("compact")),
        NOTHING,
        "no lease"
    );

    take_lease(&mut store, "another-session");
    assert_eq!(
        json(&store, Event::SessionStart, &session_start("compact")),
        NOTHING,
        "a lease another session holds — the stale case, inert without cleanup"
    );

    let anonymous = Payload {
        session_id: String::new(),
        ..session_start("compact")
    };
    assert_eq!(
        json(&store, Event::SessionStart, &anonymous),
        NOTHING,
        "no session_id on the payload"
    );

    take_lease(&mut store, SESSION);
    assert_ne!(
        json(&store, Event::SessionStart, &session_start("compact")),
        NOTHING
    );
}

#[test]
fn an_unknown_session_start_source_says_nothing() {
    let mut store = store();
    take_lease(&mut store, SESSION);
    for source in ["fork", "", "STARTUP", "compaction", "resumed"] {
        assert_eq!(
            json(&store, Event::SessionStart, &session_start(source)),
            NOTHING,
            "source {source:?}"
        );
    }
}

#[test]
fn post_tool_use_renders_the_tree_to_the_user() {
    let store = store();
    let response = store.respond(
        Event::PostToolUse,
        &bash("hydra cut consumption-surface --answer 'CLI unix tool'"),
    );
    let rendered = response.system_message.as_deref().unwrap();
    assert_eq!(
        rendered,
        render(store.load("hydra-design").unwrap(), Colour::Plain).trim_end()
    );
    assert!(rendered.starts_with("hydra-design  (1 answered, 1 open)"));
    assert!(!rendered.ends_with('\n'), "a message, not a file");
    assert_eq!(
        to_json(&response),
        format!(
            "{{\"systemMessage\":{}}}",
            serde_json::to_string(rendered).unwrap()
        ),
        "systemMessage alone: no lease, no decision, nothing for the model"
    );
}

#[test]
fn post_tool_use_gates_on_the_command_string() {
    let store = store();
    let fires = |command: &str| json(&store, Event::PostToolUse, &bash(command)) != NOTHING;

    assert!(fires("hydra cut graph-shape --answer x"));
    assert!(fires("cd /repo && hydra sprout --question 'why?'"));
    assert!(
        fires("/usr/local/bin/hydra next"),
        "an absolute path is still hydra"
    );
    assert!(fires("~/.cargo/bin/hydra next"));
    assert!(fires("HYDRA_DIR=x hydra tree"));

    // A quoted binary path contains no `hydra ` substring at all, and this is
    // the false-negative direction that costs the user a render they wanted.
    assert!(fires(r#""$HOME/bin/hydra" cut a --answer x"#));
    assert!(fires("'/opt/my tools/hydra' next"));
    assert!(fires("$(which hydra) ready"));
    assert!(fires("hydra"), "help, but still hydra");

    // Every occurrence is tested, not just the first: the name-attached lead
    // here would hide the real invocation behind it.
    assert!(fires("git-hydra sync && hydra cut a --answer x"));

    assert!(
        !fires("myhydra cut graph-shape"),
        "a longer name is a different tool"
    );
    assert!(!fires("git-hydra status"));
    assert!(!fires("./nothydra ready"));
    assert!(!fires("foo.hydra tree"));
    assert!(!fires("hydraulics --help"));
    assert!(
        !fires("cat .hydra/HEAD"),
        "reading the store is not running hydra"
    );
    assert!(!fires("ls hydra-plugin/hooks"));
    assert!(!fires("cargo build"));
    assert!(!fires(""));
}

#[test]
fn letters_of_any_script_continue_a_name() {
    let store = store();
    let fires = |command: &str| json(&store, Event::PostToolUse, &bash(command)) != NOTHING;
    assert!(!fires("éhydra next"));
    assert!(!fires("hydra語 next"));
    assert!(!fires("hydra٣"));
    assert!(!fires("hydra_x"));
    assert!(fires("→hydra← next"));
    assert!(fires("hydra"));
    assert!(!fires("hydr"));
}

#[test]
fn post_tool_use_only_looks_at_bash() {
    let store = store();
    let other = Payload {
        tool_name: "Write".to_string(),
        ..bash("hydra cut graph-shape --answer x")
    };
    assert_eq!(json(&store, Event::PostToolUse, &other), NOTHING);

    let unnamed = Payload {
        tool_name: String::new(),
        ..bash("hydra cut graph-shape --answer x")
    };
    assert_eq!(json(&store, Event::PostToolUse, &unnamed), NOTHING);
}

#[test]
fn post_tool_use_needs_no_lease() {
    let mut store = store();
    take_lease(&mut store, "another-session");
    let anonymous = Payload {
        session_id: String::new(),
        ..bash("hydra tree")
    };
    assert_ne!(json(&store, Event::PostToolUse, &anonymous), NOTHING);
}

#[test]
fn stop_blocks_under_a_live_lease_and_hands_over_next() {
    let mut store = store();
    take_lease(&mut store, SESSION);

    let response = store.respond(Event::Stop, &payload(Event::Stop));
    assert_eq!(response.decision.as_deref(), Some("block"));
    assert_eq!(
        (&response.system_message, &response.hook_specific_output),
        (&None, &None),
        "the injection is in the block's reason"
    );

    let reason = response.reason.as_deref().unwrap();
    let next = next_json(query::next(store.load("hydra-design").unwrap()).unwrap()).unwrap();
    assert!(reason.ends_with(&next), "`hydra next`, injected\n{reason}");
    assert!(reason
        .starts_with("hydra: 1 open head on 'hydra-design' — the interview is not finished."));
    assert!(reason.contains("hydra grill stop"), "name the kill switch");
    assert!(reason.contains(r#""slug": "graph-shape""#));

    assert_eq!(
        to_json(&response),
        format!(
            r#"{{"decision":"block","reason":{}}}"#,
            serde_json::to_string(reason).unwrap()
        ),
        "top-level decision and reason, and nothing else"
    );
}

#[test]
fn stop_does_not_block_when_head_has_moved_off_the_leased_tree() {
    let mut store = store();
    take_lease(&mut store, SESSION);
    store.create("storage-format");
    store.set_head("storage-format");

    assert_eq!(json(&store, Event::Stop, &payload(Event::Stop)), NOTHING);
    assert_ne!(
        json(&store, Event::SessionStart, &session_start("compact")),
        NOTHING,
        "the reload only reads, so it keeps the tree of the lease"
    );

    store.set_head("hydra-design");
    assert_ne!(
        json(&store, Event::Stop, &payload(Event::Stop)),
        NOTHING,
        "`hydra use` puts it back"
    );
}

#[test]
fn stop_blocks_at_most_once_per_turn() {
    let mut store = store();
    take_lease(&mut store, SESSION);
    let again = Payload {
        stop_hook_active: true,
        ..payload(Event::Stop)
    };
    assert_eq!(
        json(&store, Event::Stop, &again),
        NOTHING,
        "the harness sets stop_hook_active on the Stop after a blocked one"
    );
}

#[test]
fn stop_only_fires_inside_a_live_lease() {
    let mut store = store();
    let stop = payload(Event::Stop);
    assert_eq!(json(&store, Event::Stop, &stop), NOTHING, "no lease");

    take_lease(&mut store, "another-session");
    assert_eq!(
        json(&store, Event::Stop, &stop),
        NOTHING,
        "a session doing unrelated work in the same repo is never grilled"
    );

    take_lease(&mut store, SESSION);
    assert_ne!(json(&store, Event::Stop, &stop), NOTHING);

    store.lease = None;
    assert_eq!(json(&store, Event::Stop, &stop), NOTHING);
}

#[test]
fn stop_does_not_block_when_there_is_nothing_left_to_ask() {
    let mut store = store();
    take_lease(&mut store, SESSION);
    answer(
        store.design(),
        "graph-shape",
        "spanning tree + blocked_by",
    );
    assert_eq!(json(&store, Event::Stop, &payload(Event::Stop)), NOTHING);

    // The other way `next` comes back empty: every open head blocked, which
    // takes a hand-edited or forced edge.
    graph::reopen(store.design(), "graph-shape").unwrap();
    graph::link(store.design(), "graph-shape", "graph-shape", true).unwrap();
    assert!(!query::status(store.load("hydra-design").unwrap()).done);
    assert_eq!(json(&store, Event::Stop, &payload(Event::Stop)), NOTHING);
}

#[test]
fn no_store_at_all_is_a_clean_no_op() {
    for event in [Event::SessionStart, Event::PostToolUse, Event::Stop] {
        for payload in [
            session_start("startup"),
            session_start("compact"),
            bash("hydra tree"),
            payload(Event::Stop),
        ] {
            let payload = Payload {
                hook_event_name: String::new(),
                ..payload
            };
            assert_eq!(to_json(&respond(None, event, &payload)), NOTHING);
        }
    }
}

#[test]
fn a_corrupt_tree_is_a_no_op_rather_than_an_error() {
    let mut store = store();
    take_lease(&mut store, SESSION);
    store.trees.insert("hydra-design".to_string(), None);

    for payload in [
        session_start("startup"),
        session_start("compact"),
        bash("hydra tree"),
        payload(Event::Stop),
    ] {
        let event = match payload.hook_event_name.as_str() {
            "PostToolUse" => Event::PostToolUse,
            "Stop" => Event::Stop,
            _ => Event::SessionStart,
        };
        assert_eq!(json(&store, event, &payload), NOTHING, "{payload:?}");
    }
}

#[test]
fn an_empty_store_is_a_no_op() {
    let mut store = Files {
        trees: BTreeMap::new(),
        head: None,
        lease: None,
    };
    assert_eq!(
        json(&store, Event::SessionStart, &session_start("startup")),
        NOTHING
    );
    assert_eq!(
        json(&store, Event::PostToolUse, &bash("hydra tree")),
        NOTHING
    );
    assert_eq!(json(&store, Event::Stop, &payload(Event::Stop)), NOTHING);

    // A lease naming a tree that is not there.
    take_lease(&mut store, SESSION);
    assert_eq!(
        json(&store, Event::SessionStart, &session_start("compact")),
        NOTHING
    );
    assert_eq!(json(&store, Event::Stop, &payload(Event::Stop)), NOTHING);
}

#[test]
fn the_default_response_is_an_empty_object() {
    assert_eq!(to_json(&Response::default()), NOTHING);
}

#[test]
fn the_envelope_escapes_and_keeps_its_order() {
    let response = Response {
        decision: Some("a \"b\"".to_string()),
        reason: Some("line\nline".to_string()),
        system_message: Some("é".to_string()),
        hook_specific_output: None,
    };
    assert_eq!(
        to_json(&response),
        r#"{"decision":"a \"b\"","reason":"line\nline","systemMessage":"é"}"#
    );
}

#[test]
fn a_hook_is_asked_by_one_argument_and_a_payload() {
    let args = |list: &[&str]| list.iter().map(|a| a.to_string()).collect::<Vec<String>>();
    assert_eq!(requested(&args(&["stop"])), Some(Event::Stop));
    assert_eq!(requested(&args(&["Stop"])), None);
    assert_eq!(requested(&args(&[])), None);
    assert_eq!(requested(&args(&["stop", "stop"])), None);

    let payload = Payload::default();
    assert_eq!(
        answer_hook(None, Some(&payload), None),
        Response::default()
    );
    assert_eq!(
        answer_hook(Some(Event::Stop), None, None),
        Response::default()
    );
    assert_eq!(
        answer_hook(Some(Event::Stop), Some(&payload), None),
        Response::default()
    );
}

/// The escapes of a JSON string, written out by hand.
fn escaped(c: char) -> String {
    match c {
        '"' => "\\\"".to_string(),
        '\\' => "\\\\".to_string(),
        '\u{8}' => "\\b".to_string(),
        '\u{c}' => "\\f".to_string(),
        '\n' => "\\n".to_string(),
        '\r' => "\\r".to_string(),
        '\t' => "\\t".to_string(),
        c if c < ' ' => format!("\\u{:04x}", c as u32),
        c => c.to_string(),
    }
}

#[test]
fn json_strings_escape_what_they_must() {
    assert_eq!(quote(""), "\"\"");
    assert_eq!(
        quote("a\"b\\c/d\n\u{1}\u{1f}\u{7f}é\u{2028}"),
        "\"a\\\"b\\\\c/d\\n\\u0001\\u001f\u{7f}é\u{2028}\""
    );
    for code in 0..=0x10ffff_u32 {
        if let Some(c) = char::from_u32(code) {
            assert_eq!(quote(&c.to_string()), format!("\"{}\"", escaped(c)), "{code:x}");
        }
    }
}

#[test]
fn only_silence_is_written_as_nothing() {
    assert_eq!(to_json(&Response::default()), NOTHING);
    let loud = Response {
        system_message: Some(String::new()),
        ..Response::default()
    };
    assert_eq!(to_json(&loud), r#"{"systemMessage":""}"#);
}

#[test]
fn a_hook_speaks_of_the_tree_it_is_meant_for() {
    let mut store = store();
    take_lease(&mut store, SESSION);
    store.create("other");
    add(
        store.trees.get_mut("other").unwrap().as_mut().unwrap(),
        "elsewhere",
        None,
    );
    let leased = store.load("hydra-design").unwrap();
    let resume = resume_json(query::resume(leased)).unwrap();
    let next = next_json(query::next(leased).unwrap()).unwrap();

    let refused = store.respond(Event::Stop, &payload(Event::Stop));
    assert!(refused.reason.unwrap().ends_with(&next));

    store.set_head("other");
    let reloaded = store.respond(Event::SessionStart, &session_start("compact"));
    let context = reloaded.hook_specific_output.unwrap().additional_context;
    assert!(context.contains("'hydra-design'"));
    assert!(context.ends_with(&resume));
    let notice = store.respond(Event::SessionStart, &session_start("startup"));
    assert!(notice.system_message.unwrap().contains("'other'"));
    assert_eq!(
        store.respond(Event::Stop, &payload(Event::Stop)),
        Response::default()
    );
}

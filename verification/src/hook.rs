//! Answers to the hooks of a coding session.
//!
//! A hook is asked in every project, most of which have no store, and whatever it
//! says lands in a session that may never have asked for it. So nothing here
//! fails: what does not match a gate is answered with silence.

use vstd::prelude::*;

use crate::grill::{self, Lease, LeaseView};
use crate::json::{self, Json, JsonView};
use crate::model::{Tree, TreeView};
use crate::query::{self, Detail, DetailView, Resume, ResumeView};
use crate::render;
use crate::text::{self, Text};

verus! {

// ---------------------------------------------------------------------------
// Events
// ---------------------------------------------------------------------------

#[derive(Debug, Clone, Copy, PartialEq, Eq, Structural)]
pub enum Event {
    SessionStart,
    PostToolUse,
    Stop,
}

/// The event that a verb stands for. No other spelling is taken: an event that is
/// half recognised would be answered by the wrong gate.
pub open spec fn event_of(verb: Text) -> Option<Event> {
    if verb == "session-start"@ {
        Some(Event::SessionStart)
    } else if verb == "post-tool-use"@ {
        Some(Event::PostToolUse)
    } else if verb == "stop"@ {
        Some(Event::Stop)
    } else {
        None
    }
}

/// The name that an answer has to echo.
pub open spec fn name_of(event: Event) -> Text {
    match event {
        Event::SessionStart => "SessionStart"@,
        Event::PostToolUse => "PostToolUse"@,
        Event::Stop => "Stop"@,
    }
}

impl Event {
    pub fn parse(verb: &str) -> (r: Option<Event>)
        ensures
            r == event_of(verb@),
    {
        if text::same(verb, "session-start") {
            Some(Event::SessionStart)
        } else if text::same(verb, "post-tool-use") {
            Some(Event::PostToolUse)
        } else if text::same(verb, "stop") {
            Some(Event::Stop)
        } else {
            None
        }
    }

    pub fn name(self) -> (r: &'static str)
        ensures
            r@ == name_of(self),
    {
        match self {
            Event::SessionStart => "SessionStart",
            Event::PostToolUse => "PostToolUse",
            Event::Stop => "Stop",
        }
    }
}

/// The event that the arguments of a hook ask for: there has to be one argument,
/// spelled exactly.
pub fn requested(args: &Vec<String>) -> (r: Option<Event>)
    ensures
        r == (if args@.len() == 1 {
            event_of(args@[0]@)
        } else {
            None
        }),
{
    if args.len() == 1 {
        Event::parse(args[0].as_str())
    } else {
        None
    }
}

// ---------------------------------------------------------------------------
// Payloads
// ---------------------------------------------------------------------------

/// The tool whose commands are looked at.
pub const BASH: &'static str = "Bash";

/// The fields of a hook's payload that the gates read. Empty means absent, and
/// matches nothing.
#[derive(Debug, Clone, Default, PartialEq, Eq)]
pub struct Payload {
    pub session_id: String,
    /// The event that the payload says it is for.
    pub hook_event_name: String,
    /// Why a session starts.
    pub source: String,
    pub tool_name: String,
    /// The command of the tool's input.
    pub command: String,
    /// Set when a stop follows one that was refused.
    pub stop_hook_active: bool,
}

pub struct PayloadView {
    pub session_id: Text,
    pub hook_event_name: Text,
    pub source: Text,
    pub tool_name: Text,
    pub command: Text,
    pub stop_hook_active: bool,
}

impl View for Payload {
    type V = PayloadView;

    open spec fn view(&self) -> PayloadView {
        PayloadView {
            session_id: self.session_id@,
            hook_event_name: self.hook_event_name@,
            source: self.source@,
            tool_name: self.tool_name@,
            command: self.command@,
            stop_hook_active: self.stop_hook_active,
        }
    }
}

/// What is read of a JSON value: nothing, unless it is an object; and of an
/// object each field that has the right type, so that one of the wrong type
/// costs only itself.
pub open spec fn payload_of(json: JsonView) -> Option<PayloadView> {
    if json is Object {
        Some(
            PayloadView {
                session_id: json::text_or_empty(json.at("session_id"@)),
                hook_event_name: json::text_or_empty(json.at("hook_event_name"@)),
                source: json::text_or_empty(json.at("source"@)),
                tool_name: json::text_or_empty(json.at("tool_name"@)),
                command: match json.at("tool_input"@) {
                    Some(input) => json::text_or_empty(input.at("command"@)),
                    None => Seq::empty(),
                },
                stop_hook_active: json::flag_or_false(json.at("stop_hook_active"@)),
            },
        )
    } else {
        None
    }
}

pub open spec fn payload_view(payload: Option<Payload>) -> Option<PayloadView> {
    match payload {
        Some(payload) => Some(payload@),
        None => None,
    }
}

impl Payload {
    /// The payload in a JSON value.
    pub fn from_json(json: &Json) -> (r: Option<Payload>)
        ensures
            payload_view(r) == payload_of(json@),
    {
        if !json.is_object() {
            return None;
        }
        Some(
            Payload {
                session_id: json::text_in(json.get("session_id")),
                hook_event_name: json::text_in(json.get("hook_event_name")),
                source: json::text_in(json.get("source")),
                tool_name: json::text_in(json.get("tool_name")),
                command: match json.get("tool_input") {
                    Some(input) => json::text_in(input.get("command")),
                    None => String::new(),
                },
                stop_hook_active: json::flag_in(json.get("stop_hook_active")),
            },
        )
    }

    /// The payload in a text. One that is no JSON object holds none.
    pub fn parse(raw: &str) -> (r: Option<Payload>)
        ensures
            payload_view(r) == (match json::parsed(raw@) {
                Some(json) => payload_of(json),
                None => None,
            }),
    {
        match json::parse(raw) {
            Some(json) => Payload::from_json(&json),
            None => None,
        }
    }
}

// ---------------------------------------------------------------------------
// Answers
// ---------------------------------------------------------------------------

/// The part of an answer that belongs to an event.
#[derive(Debug, Clone, PartialEq, Eq)]
pub struct Specific {
    pub hook_event_name: String,
    pub additional_context: String,
}

/// What a hook says.
#[derive(Debug, Clone, PartialEq, Eq)]
pub struct Response {
    /// Set only to refuse a stop.
    pub decision: Option<String>,
    /// What the model is told when a stop is refused.
    pub reason: Option<String>,
    /// What the user is shown.
    pub system_message: Option<String>,
    pub hook_specific_output: Option<Specific>,
}

pub struct SpecificView {
    pub hook_event_name: Text,
    pub additional_context: Text,
}

pub struct ResponseView {
    pub decision: Option<Text>,
    pub reason: Option<Text>,
    pub system_message: Option<Text>,
    pub hook_specific_output: Option<SpecificView>,
}

impl View for Specific {
    type V = SpecificView;

    open spec fn view(&self) -> SpecificView {
        SpecificView {
            hook_event_name: self.hook_event_name@,
            additional_context: self.additional_context@,
        }
    }
}

impl View for Response {
    type V = ResponseView;

    open spec fn view(&self) -> ResponseView {
        ResponseView {
            decision: text::optional(self.decision),
            reason: text::optional(self.reason),
            system_message: text::optional(self.system_message),
            hook_specific_output: match self.hook_specific_output {
                Some(specific) => Some(specific@),
                None => None,
            },
        }
    }
}

/// The answer that says nothing.
pub open spec fn silence() -> ResponseView {
    ResponseView {
        decision: None,
        reason: None,
        system_message: None,
        hook_specific_output: None,
    }
}

/// An answer that shows the user a message.
pub open spec fn message(t: Text) -> ResponseView {
    ResponseView { system_message: Some(t), ..silence() }
}

impl Default for Response {
    fn default() -> (r: Self)
        ensures
            r@ == silence(),
    {
        Response { decision: None, reason: None, system_message: None, hook_specific_output: None }
    }
}

/// What the gates look at: the active tree, the lease and its tree, as far as
/// each could be read, and what is handed over of the leased tree, as JSON.
pub struct Snapshot {
    head: Option<String>,
    head_tree: Option<Tree>,
    lease: Option<Lease>,
    leased_tree: Option<Tree>,
    resume: Option<String>,
    next: Option<String>,
}

pub struct SnapshotView {
    /// The slug of the active tree.
    pub head: Option<Text>,
    pub head_tree: Option<TreeView>,
    pub lease: Option<LeaseView>,
    /// The tree that the lease names, which need not be the active one.
    pub leased_tree: Option<TreeView>,
    /// The payload that resumes the leased tree.
    pub resume: Option<Text>,
    /// The next head of the leased tree, in full.
    pub next: Option<Text>,
}

pub open spec fn tree_option(tree: Option<Tree>) -> Option<TreeView> {
    match tree {
        Some(tree) => Some(tree@),
        None => None,
    }
}

impl View for Snapshot {
    type V = SnapshotView;

    closed spec fn view(&self) -> SnapshotView {
        SnapshotView {
            head: text::optional(self.head),
            head_tree: tree_option(self.head_tree),
            lease: grill::lease_view(self.lease),
            leased_tree: tree_option(self.leased_tree),
            resume: text::optional(self.resume),
            next: text::optional(self.next),
        }
    }
}

/// The tree of a slug is what `load` gave for it.
pub open spec fn loaded_by<L: Fn(&str) -> Option<Tree>>(
    load: L,
    slug: Option<Text>,
    tree: Option<TreeView>,
) -> bool {
    match slug {
        Some(slug) => exists|asked: &str, given: Option<Tree>|
            asked@ == slug && #[trigger] load.ensures((asked,), given) && tree_option(given) == tree,
        None => tree is None,
    }
}

/// The text is what `write` gave for a value with this view.
pub open spec fn written_by<T: View, W: Fn(T) -> Option<String>>(
    write: W,
    value: T::V,
    written: Option<Text>,
) -> bool {
    exists|handed: T, given: Option<String>|
        handed@ == value && #[trigger] write.ensures((handed,), given) && text::optional(given)
            == written
}

/// The slug of the tree that a lease is on.
pub open spec fn tree_of(lease: Option<LeaseView>) -> Option<Text> {
    match lease {
        Some(lease) => Some(lease.tree),
        None => None,
    }
}

/// The next head of a tree, in full.
pub open spec fn next_detail(tree: TreeView) -> Option<DetailView> {
    match query::next_of(tree.heads) {
        Some(slug) => Some(query::detail_of(tree.heads, slug)),
        None => None,
    }
}

/// The trees of a snapshot are what `load` gave for the slugs that the active tree
/// and the lease have, and what is handed over is what `resume` and `next` gave for
/// what the queries say of the leased tree.
pub open spec fn gathered<
    L: Fn(&str) -> Option<Tree>,
    R: Fn(Resume) -> Option<String>,
    N: Fn(Detail) -> Option<String>,
>(load: L, resume: R, next: N, s: SnapshotView) -> bool {
    &&& loaded_by(load, s.head, s.head_tree)
    &&& loaded_by(load, tree_of(s.lease), s.leased_tree)
    &&& match s.leased_tree {
        Some(tree) => written_by(resume, query::resume_of(tree), s.resume),
        None => s.resume is None,
    }
    &&& match s.leased_tree {
        Some(tree) => match next_detail(tree) {
            Some(detail) => written_by(next, detail, s.next),
            None => s.next is None,
        },
        None => s.next is None,
    }
}

impl Snapshot {
    /// Looks at a store, through `load` for its trees. What is handed over of the
    /// leased tree is written by `resume` and `next`.
    pub fn gather<
        L: Fn(&str) -> Option<Tree>,
        R: Fn(Resume) -> Option<String>,
        N: Fn(Detail) -> Option<String>,
    >(head: Option<String>, lease: Option<Lease>, load: L, resume: R, next: N) -> (r: Snapshot)
        requires
            forall|slug: &str| #[trigger] load.requires((slug,)),
            forall|value: Resume| #[trigger] resume.requires((value,)),
            forall|value: Detail| #[trigger] next.requires((value,)),
        ensures
            r@.head == text::optional(head),
            r@.lease == grill::lease_view(lease),
            gathered(load, resume, next, r@),
    {
        let head_tree = match &head {
            Some(slug) => load(slug.as_str()),
            None => None,
        };
        let leased_tree = match &lease {
            Some(lease) => load(lease.tree.as_str()),
            None => None,
        };
        let (resumed, asked) = match &leased_tree {
            Some(tree) => (
                resume(query::resume(tree)),
                match query::next(tree) {
                    Some(detail) => next(detail),
                    None => None,
                },
            ),
            None => (None, None),
        };
        Snapshot { head, head_tree, lease, leased_tree, resume: resumed, next: asked }
    }
}

pub open spec fn snapshot_view(snapshot: Option<&Snapshot>) -> Option<SnapshotView> {
    match snapshot {
        Some(snapshot) => Some(snapshot@),
        None => None,
    }
}

impl SnapshotView {
    /// The session of the payload holds the lease.
    pub open spec fn leased_to(self, payload: PayloadView) -> bool {
        self.lease matches Some(lease) && lease.held_by(payload.session_id)
    }
}

// ---------------------------------------------------------------------------
// What is said
// ---------------------------------------------------------------------------

pub open spec fn plural_of(count: nat) -> Text {
    if count == 1 {
        ""@
    } else {
        "s"@
    }
}

pub open spec fn notice_parts(tree: TreeView) -> Seq<Text> {
    let open = query::counts_of(tree).open;
    seq![
        "hydra: "@,
        text::decimal(open),
        " open head"@,
        plural_of(open),
        " on '"@,
        tree.slug,
        "' — /hydra to resume"@,
    ]
}

pub open spec fn reload_parts(tree: TreeView, source: Text, resume: Text) -> Seq<Text> {
    seq![
        "hydra: context was reset ("@,
        source,
        ") during an interview on '"@,
        tree.slug,
        "'. Below is `hydra resume`: the skeleton of every head, and full detail for `next` and its ancestors. Carry on from `next`.\n\n"@,
        resume,
    ]
}

pub open spec fn block_parts(tree: TreeView, next: Text) -> Seq<Text> {
    let open = query::counts_of(tree).open;
    seq![
        "hydra: "@,
        text::decimal(open),
        " open head"@,
        plural_of(open),
        " on '"@,
        tree.slug,
        "' — the interview is not finished. Ask the head below rather than summarising or wrapping up. `hydra grill stop` ends the interview.\n\n"@,
        next,
    ]
}

fn plural(count: usize) -> (r: &'static str)
    ensures
        r@ == plural_of(count as nat),
{
    if count == 1 {
        ""
    } else {
        "s"
    }
}

/// What is said when a session starts: how many heads are open, if any are.
pub open spec fn announcement(tree: TreeView) -> ResponseView {
    if query::counts_of(tree).open == 0 {
        silence()
    } else {
        message(text::concat(notice_parts(tree)))
    }
}

fn open_heads_notice(tree: &Tree) -> (r: Response)
    ensures
        r@ == announcement(tree@),
{
    let counts = query::status(tree);
    if counts.open == 0 {
        return Response::default();
    }
    let count = text::decimal_of(counts.open as u64);
    let parts = vec![
        "hydra: ",
        count.as_str(),
        " open head",
        plural(counts.open),
        " on '",
        tree.slug.as_str(),
        "' — /hydra to resume",
    ];
    assert(text::str_texts(parts@) =~= notice_parts(tree@));
    Response {
        decision: None,
        reason: None,
        system_message: Some(text::glue(&parts)),
        hook_specific_output: None,
    }
}

/// What is said when a session lost its context: everything, with a line that
/// tells the model so. After a compaction it does not know that it forgot.
pub open spec fn reloading(tree: TreeView, source: Text, resume: Text) -> ResponseView {
    ResponseView {
        hook_specific_output: Some(
            SpecificView {
                hook_event_name: name_of(Event::SessionStart),
                additional_context: text::concat(reload_parts(tree, source, resume)),
            },
        ),
        ..silence()
    }
}

fn reload(tree: &Tree, source: &str, resume: &str) -> (r: Response)
    ensures
        r@ == reloading(tree@, source@, resume@),
{
    let parts = vec![
        "hydra: context was reset (",
        source,
        ") during an interview on '",
        tree.slug.as_str(),
        "'. Below is `hydra resume`: the skeleton of every head, and full detail for `next` and its ancestors. Carry on from `next`.\n\n",
        resume,
    ];
    assert(text::str_texts(parts@) =~= reload_parts(tree@, source@, resume@));
    Response {
        decision: None,
        reason: None,
        system_message: None,
        hook_specific_output: Some(
            Specific {
                hook_event_name: text::owned(Event::SessionStart.name()),
                additional_context: text::glue(&parts),
            },
        ),
    }
}

/// What is said at the start of a session. A session that has just begun has no
/// lease yet, so it hears of the active tree; one whose context was cleared or
/// compacted kept its identifier, and is handed its interview back.
pub open spec fn at_session_start(s: Option<SnapshotView>, payload: PayloadView) -> ResponseView {
    match s {
        None => silence(),
        Some(s) => if payload.source == "startup"@ || payload.source == "resume"@ {
            match s.head_tree {
                Some(tree) => announcement(tree),
                None => silence(),
            }
        } else if payload.source == "compact"@ || payload.source == "clear"@ {
            match (s.leased_tree, s.resume) {
                (Some(tree), Some(resume)) if s.leased_to(payload) => reloading(
                    tree,
                    payload.source,
                    resume,
                ),
                _ => silence(),
            }
        } else {
            silence()
        },
    }
}

fn is_leased(snapshot: &Snapshot, payload: &Payload) -> (r: bool)
    ensures
        r == snapshot@.leased_to(payload@),
{
    match &snapshot.lease {
        Some(lease) => lease.holds(payload.session_id.as_str()),
        None => false,
    }
}

fn session_start(snapshot: Option<&Snapshot>, payload: &Payload) -> (r: Response)
    ensures
        r@ == at_session_start(snapshot_view(snapshot), payload@),
{
    let snapshot = match snapshot {
        Some(snapshot) => snapshot,
        None => return Response::default(),
    };
    let source = payload.source.as_str();
    if text::same(source, "startup") || text::same(source, "resume") {
        match &snapshot.head_tree {
            Some(tree) => open_heads_notice(tree),
            None => Response::default(),
        }
    } else if text::same(source, "compact") || text::same(source, "clear") {
        match (&snapshot.leased_tree, &snapshot.resume) {
            (Some(tree), Some(resume)) => if is_leased(snapshot, payload) {
                reload(tree, source, resume.as_str())
            } else {
                Response::default()
            },
            _ => Response::default(),
        }
    } else {
        Response::default()
    }
}

// ---------------------------------------------------------------------------
// Commands
// ---------------------------------------------------------------------------

/// The character is a letter or a number in any script.
pub uninterp spec fn alphanumeric(c: char) -> bool;

/// `char::is_alphanumeric` of the standard library: whether Unicode counts the
/// character as a letter or a number. Which those are is left to the name.
#[verifier::external_body]
fn is_alphanumeric(c: char) -> (r: bool)
    ensures
        r == alphanumeric(c),
{
    c.is_alphanumeric()
}

/// The character makes a word next to it part of another name.
pub open spec fn continues_name(c: char) -> bool {
    alphanumeric(c) || c == '_' || c == '-' || c == '.'
}

fn part_of_a_longer_name(c: char) -> (r: bool)
    ensures
        r == continues_name(c),
{
    is_alphanumeric(c) || c == '_' || c == '-' || c == '.'
}

/// `word` stands at `at` as a name of its own.
pub open spec fn stands_alone(command: Text, word: Text, at: int) -> bool {
    &&& 0 <= at <= command.len() - word.len()
    &&& command.subrange(at, at + word.len()) == word
    &&& at > 0 ==> !continues_name(command[at - 1])
    &&& at + word.len() < command.len() ==> !continues_name(command[at + word.len()])
}

/// The command runs this program: its name stands in it somewhere as a word of
/// its own.
pub open spec fn runs(command: Text) -> bool {
    exists|at: int| stands_alone(command, "hydra"@, at)
}

fn found_at(chars: &Vec<char>, word: &Vec<char>, at: usize) -> (r: bool)
    requires
        at + word@.len() <= chars@.len(),
    ensures
        r == (chars@.subrange(at as int, at + word@.len()) == word@),
{
    let ghost part = chars@.subrange(at as int, at + word@.len());
    let count: usize = chars.len();
    for i in 0..word.len()
        invariant
            count == chars@.len(),
            at + word@.len() <= count,
            part == chars@.subrange(at as int, at + word@.len()),
            forall|j: int| 0 <= j < i ==> part[j] == word@[j],
    {
        assert(part[i as int] == chars@[at + i]);
        if chars[at + i] != word[i] {
            return false;
        }
    }
    assert(part =~= word@);
    true
}

fn runs_hydra(command: &str) -> (r: bool)
    ensures
        r == runs(command@),
{
    let chars = text::chars_of(command);
    let word = text::chars_of("hydra");
    let count: usize = chars.len();
    let size: usize = word.len();
    if size > count {
        return false;
    }
    proof {
        reveal_strlit("hydra");
    }
    for at in 0..(count - size + 1)
        invariant
            chars@ == command@,
            word@ == "hydra"@,
            count == chars@.len(),
            size == word@.len(),
            size <= count,
            forall|j: int| 0 <= j < at ==> !#[trigger] stands_alone(command@, "hydra"@, j),
    {
        if found_at(&chars, &word, at) && !(at > 0 && part_of_a_longer_name(chars[at - 1])) && !(at
            + size < count && part_of_a_longer_name(chars[at + size])) {
            assert(stands_alone(command@, "hydra"@, at as int));
            return true;
        }
    }
    false
}

/// What is said after a tool was used: the drawing of the active tree, if the
/// tool was the shell and the command ran this program.
pub open spec fn after_tool_use(s: Option<SnapshotView>, payload: PayloadView) -> ResponseView {
    match s {
        Some(s) => match s.head_tree {
            Some(tree) if payload.tool_name == BASH@ && runs(payload.command) => message(
                text::trimmed_end(render::drawing(tree, render::Colour::Plain)),
            ),
            _ => silence(),
        },
        None => silence(),
    }
}

fn post_tool_use(snapshot: Option<&Snapshot>, payload: &Payload) -> (r: Response)
    ensures
        r@ == after_tool_use(snapshot_view(snapshot), payload@),
{
    if !text::same(payload.tool_name.as_str(), BASH) || !runs_hydra(payload.command.as_str()) {
        return Response::default();
    }
    let snapshot = match snapshot {
        Some(snapshot) => snapshot,
        None => return Response::default(),
    };
    match &snapshot.head_tree {
        Some(tree) => {
            let drawing = render::render(tree, render::Colour::Plain);
            Response {
                decision: None,
                reason: None,
                system_message: Some(text::owned(text::trim_end(drawing.as_str()))),
                hook_specific_output: None,
            }
        },
        None => Response::default(),
    }
}

// ---------------------------------------------------------------------------
// Stopping
// ---------------------------------------------------------------------------

/// A stop is refused: the session holds the lease, its tree is the active one, it
/// was not refused already in this turn, and there is a head to ask.
pub open spec fn refuses_stop(s: SnapshotView, payload: PayloadView) -> bool {
    &&& !payload.stop_hook_active
    &&& s.leased_to(payload)
    &&& s.head == Some(s.lease->0.tree)
    &&& s.leased_tree matches Some(tree) && query::next_of(tree.heads) is Some
    &&& s.next is Some
}

/// What is said at a stop: nothing, or a refusal that hands over the next head. A
/// refusal with nothing to ask would wall the session in, and one that speaks of
/// a tree that is not the active one would name a head that no command can see.
pub open spec fn at_stop(s: Option<SnapshotView>, payload: PayloadView) -> ResponseView {
    match s {
        Some(s) => if refuses_stop(s, payload) {
            ResponseView {
                decision: Some("block"@),
                reason: Some(text::concat(block_parts(s.leased_tree->0, s.next->0))),
                ..silence()
            }
        } else {
            silence()
        },
        None => silence(),
    }
}

fn block(tree: &Tree, next: &str) -> (r: Response)
    ensures
        r@ == (ResponseView {
            decision: Some("block"@),
            reason: Some(text::concat(block_parts(tree@, next@))),
            ..silence()
        }),
{
    let counts = query::status(tree);
    let count = text::decimal_of(counts.open as u64);
    let parts = vec![
        "hydra: ",
        count.as_str(),
        " open head",
        plural(counts.open),
        " on '",
        tree.slug.as_str(),
        "' — the interview is not finished. Ask the head below rather than summarising or wrapping up. `hydra grill stop` ends the interview.\n\n",
        next,
    ];
    assert(text::str_texts(parts@) =~= block_parts(tree@, next@));
    Response {
        decision: Some(text::owned("block")),
        reason: Some(text::glue(&parts)),
        system_message: None,
        hook_specific_output: None,
    }
}

fn stop(snapshot: Option<&Snapshot>, payload: &Payload) -> (r: Response)
    ensures
        r@ == at_stop(snapshot_view(snapshot), payload@),
{
    if payload.stop_hook_active {
        return Response::default();
    }
    let snapshot = match snapshot {
        Some(snapshot) => snapshot,
        None => return Response::default(),
    };
    let lease = match &snapshot.lease {
        Some(lease) => lease,
        None => return Response::default(),
    };
    if !lease.holds(payload.session_id.as_str()) {
        return Response::default();
    }
    let active = match &snapshot.head {
        Some(head) => text::same(head.as_str(), lease.tree.as_str()),
        None => false,
    };
    if !active {
        return Response::default();
    }
    match (&snapshot.leased_tree, &snapshot.next) {
        (Some(tree), Some(next)) => match query::next_slug(tree) {
            Some(_) => block(tree, next.as_str()),
            None => Response::default(),
        },
        _ => Response::default(),
    }
}

// ---------------------------------------------------------------------------
// The gates together
// ---------------------------------------------------------------------------

/// The answer to an event. A payload that says it is for another event is
/// answered with silence; one that does not say is not.
pub open spec fn response_to(s: Option<SnapshotView>, event: Event, payload: PayloadView) -> ResponseView {
    if payload.hook_event_name.len() > 0 && payload.hook_event_name != name_of(event) {
        silence()
    } else {
        match event {
            Event::SessionStart => at_session_start(s, payload),
            Event::PostToolUse => after_tool_use(s, payload),
            Event::Stop => at_stop(s, payload),
        }
    }
}

/// Answers an event. There is no snapshot where there is no store.
pub fn respond(snapshot: Option<&Snapshot>, event: Event, payload: &Payload) -> (r: Response)
    ensures
        r@ == response_to(snapshot_view(snapshot), event, payload@),
{
    if payload.hook_event_name.as_str().unicode_len() > 0 && !text::same(
        payload.hook_event_name.as_str(),
        event.name(),
    ) {
        return Response::default();
    }
    match event {
        Event::SessionStart => session_start(snapshot, payload),
        Event::PostToolUse => post_tool_use(snapshot, payload),
        Event::Stop => stop(snapshot, payload),
    }
}

/// Answers a hook whatever it was asked: with silence, unless it was one event
/// with a payload.
pub fn answer(
    event: Option<Event>,
    payload: Option<&Payload>,
    snapshot: Option<&Snapshot>,
) -> (r: Response)
    ensures
        r@ == (match (event, payload) {
            (Some(event), Some(payload)) => response_to(
                snapshot_view(snapshot),
                event,
                payload@,
            ),
            _ => silence(),
        }),
{
    match (event, payload) {
        (Some(event), Some(payload)) => respond(snapshot, event, payload),
        _ => Response::default(),
    }
}

// ---------------------------------------------------------------------------
// What is spoken of
// ---------------------------------------------------------------------------

pub open spec fn tree_at(trees: Map<Text, TreeView>, slug: Option<Text>) -> Option<TreeView> {
    match slug {
        Some(slug) if trees.dom().contains(slug) => Some(trees[slug]),
        _ => None,
    }
}

/// What there is to see of a store with these trees, where `resume` and `next` say
/// how a payload and a head are written.
pub open spec fn seen(
    head: Option<Text>,
    lease: Option<LeaseView>,
    trees: Map<Text, TreeView>,
    resume: spec_fn(ResumeView) -> Option<Text>,
    next: spec_fn(DetailView) -> Option<Text>,
) -> SnapshotView {
    let leased_tree = tree_at(trees, tree_of(lease));
    SnapshotView {
        head,
        head_tree: tree_at(trees, head),
        lease,
        leased_tree,
        resume: match leased_tree {
            Some(tree) => resume(query::resume_of(tree)),
            None => None,
        },
        next: match leased_tree {
            Some(tree) => match next_detail(tree) {
                Some(detail) => next(detail),
                None => None,
            },
            None => None,
        },
    }
}

/// A snapshot shows the store, where every tree is read as it is and values with
/// the same view are written the same.
pub proof fn snapshot_shows_the_store<
    L: Fn(&str) -> Option<Tree>,
    R: Fn(Resume) -> Option<String>,
    N: Fn(Detail) -> Option<String>,
>(
    load: L,
    resume: R,
    next: N,
    s: SnapshotView,
    trees: Map<Text, TreeView>,
    as_resume: spec_fn(ResumeView) -> Option<Text>,
    as_next: spec_fn(DetailView) -> Option<Text>,
)
    requires
        gathered(load, resume, next, s),
        forall|slug: &str, given: Option<Tree>| #[trigger]
            load.ensures((slug,), given) ==> tree_option(given) == tree_at(trees, Some(slug@)),
        forall|value: Resume, given: Option<String>| #[trigger]
            resume.ensures((value,), given) ==> text::optional(given) == as_resume(value@),
        forall|value: Detail, given: Option<String>| #[trigger]
            next.ensures((value,), given) ==> text::optional(given) == as_next(value@),
    ensures
        s == seen(s.head, s.lease, trees, as_resume, as_next),
{
}

pub open spec fn ends_in(t: Text, end: Text) -> bool {
    end.len() <= t.len() && t.skip(t.len() - end.len()) == end
}

proof fn lemma_ends_in_last(parts: Seq<Text>)
    requires
        parts.len() > 0,
    ensures
        ends_in(text::concat(parts), parts.last()),
{
    let t = text::concat(parts);
    assert(t.skip(t.len() - parts.last().len()) =~= parts.last());
}

/// A refused stop speaks of the tree that the lease names, which is the active one,
/// and ends in that tree's next head.
pub proof fn refusal_speaks_of_the_leased_tree(
    head: Option<Text>,
    lease: Option<LeaseView>,
    trees: Map<Text, TreeView>,
    resume: spec_fn(ResumeView) -> Option<Text>,
    next: spec_fn(DetailView) -> Option<Text>,
    payload: PayloadView,
)
    requires
        at_stop(Some(seen(head, lease, trees, resume, next)), payload) != silence(),
    ensures
        lease matches Some(lease) && lease.held_by(payload.session_id) && head == Some(lease.tree),
        trees.dom().contains(lease->0.tree),
        next_detail(trees[lease->0.tree]) is Some,
        next(next_detail(trees[lease->0.tree])->0) is Some,
        ({
            let tree = trees[lease->0.tree];
            let said = next(next_detail(tree)->0)->0;
            let answer = at_stop(Some(seen(head, lease, trees, resume, next)), payload);
            &&& answer.decision == Some("block"@)
            &&& answer.reason == Some(text::concat(block_parts(tree, said)))
            &&& ends_in(answer.reason->0, said)
        }),
{
    let tree = trees[lease->0.tree];
    lemma_ends_in_last(block_parts(tree, next(next_detail(tree)->0)->0));
}

/// A reload speaks of the tree that the lease names, whichever is active, and ends
/// in the payload that resumes that tree.
pub proof fn reload_speaks_of_the_leased_tree(
    head: Option<Text>,
    lease: Option<LeaseView>,
    trees: Map<Text, TreeView>,
    resume: spec_fn(ResumeView) -> Option<Text>,
    next: spec_fn(DetailView) -> Option<Text>,
    payload: PayloadView,
)
    requires
        payload.source == "compact"@ || payload.source == "clear"@,
        at_session_start(Some(seen(head, lease, trees, resume, next)), payload) != silence(),
    ensures
        lease matches Some(lease) && lease.held_by(payload.session_id),
        trees.dom().contains(lease->0.tree),
        resume(query::resume_of(trees[lease->0.tree])) is Some,
        ({
            let tree = trees[lease->0.tree];
            let said = resume(query::resume_of(tree))->0;
            let answer = at_session_start(Some(seen(head, lease, trees, resume, next)), payload);
            &&& answer == reloading(tree, payload.source, said)
            &&& ends_in(answer.hook_specific_output->0.additional_context, said)
        }),
{
    reveal_strlit("startup");
    reveal_strlit("resume");
    reveal_strlit("compact");
    reveal_strlit("clear");
    assert("startup"@.len() == 7 && "resume"@.len() == 6 && "clear"@.len() == 5);
    assert("startup"@[0] == 's' && "compact"@[0] == 'c');
    let tree = trees[lease->0.tree];
    lemma_ends_in_last(reload_parts(tree, payload.source, resume(query::resume_of(tree))->0));
}

/// What is said when a session starts, and after a command, is of the active tree,
/// whatever the lease is on.
pub proof fn notices_speak_of_the_active_tree(
    head: Option<Text>,
    lease: Option<LeaseView>,
    trees: Map<Text, TreeView>,
    resume: spec_fn(ResumeView) -> Option<Text>,
    next: spec_fn(DetailView) -> Option<Text>,
    payload: PayloadView,
)
    ensures
        payload.source == "startup"@ || payload.source == "resume"@ ==> at_session_start(
            Some(seen(head, lease, trees, resume, next)),
            payload,
        ) == (match tree_at(trees, head) {
            Some(tree) => announcement(tree),
            None => silence(),
        }),
        after_tool_use(Some(seen(head, lease, trees, resume, next)), payload) == (match tree_at(
            trees,
            head,
        ) {
            Some(tree) if payload.tool_name == BASH@ && runs(payload.command) => message(
                text::trimmed_end(render::drawing(tree, render::Colour::Plain)),
            ),
            _ => silence(),
        }),
{
}

/// Where there is no store nothing is said.
pub proof fn silent_without_a_store(event: Event, payload: PayloadView)
    ensures
        response_to(None, event, payload) == silence(),
{
}

/// A stop is refused to the session that holds the lease and to no other, on the
/// active tree, and at most once in a turn.
pub proof fn only_the_leased_session_is_held(
    s: Option<SnapshotView>,
    event: Event,
    payload: PayloadView,
)
    ensures
        response_to(s, event, payload).decision is Some ==> {
            &&& event == Event::Stop
            &&& !payload.stop_hook_active
            &&& s is Some
            &&& s->0.leased_to(payload)
            &&& s->0.head == Some(s->0.lease->0.tree)
        },
{
}

/// Context is handed back only to the session that holds the lease.
pub proof fn only_the_leased_session_is_reloaded(
    s: Option<SnapshotView>,
    event: Event,
    payload: PayloadView,
)
    ensures
        response_to(s, event, payload).hook_specific_output is Some ==> {
            &&& event == Event::SessionStart
            &&& s is Some
            &&& s->0.leased_to(payload)
        },
{
}

/// A payload without an identifier is never taken for the session that holds the
/// lease.
pub proof fn anonymous_sessions_hold_nothing(s: SnapshotView, payload: PayloadView)
    requires
        payload.session_id.len() == 0,
    ensures
        !s.leased_to(payload),
{
}

/// A stop is not refused when the tree is done.
pub proof fn a_done_tree_lets_go(s: SnapshotView, payload: PayloadView, tree: TreeView)
    requires
        tree.heads.dom().finite(),
        s.leased_tree == Some(tree),
        query::counts_of(tree).done,
    ensures
        response_to(Some(s), Event::Stop, payload) == silence(),
{
    query::next_is_ready(tree.heads);
}

// ---------------------------------------------------------------------------
// The envelope
// ---------------------------------------------------------------------------

/// A member of a JSON object, of a value that is JSON already.
pub open spec fn member(key: Text, value: Text) -> Text {
    "\""@ + key + "\":"@ + value
}

/// The member of a string, if there is one.
pub open spec fn text_member(key: Text, value: Option<Text>) -> Seq<Text> {
    match value {
        None => Seq::empty(),
        Some(t) => seq![member(key, json::quoted(t))],
    }
}

pub open spec fn specific_member(specific: Option<SpecificView>) -> Seq<Text> {
    match specific {
        None => Seq::empty(),
        Some(specific) => seq![
            member(
                "hookSpecificOutput"@,
                "{"@ + member("hookEventName"@, json::quoted(specific.hook_event_name)) + ","@
                    + member("additionalContext"@, json::quoted(specific.additional_context))
                    + "}"@,
            ),
        ],
    }
}

/// The members of an answer that are there, in this order.
pub open spec fn members_of(r: ResponseView) -> Seq<Text> {
    text_member("decision"@, r.decision) + text_member("reason"@, r.reason) + text_member(
        "systemMessage"@,
        r.system_message,
    ) + specific_member(r.hook_specific_output)
}

/// An answer as JSON: an object of its members.
pub open spec fn envelope(r: ResponseView) -> Text {
    "{"@ + text::joined(members_of(r), ","@) + "}"@
}

/// An answer is written as the empty object exactly when it says nothing.
pub proof fn only_silence_is_written_as_nothing(r: ResponseView)
    ensures
        envelope(r) == "{}"@ <==> r == silence(),
{
    reveal_strlit("{");
    reveal_strlit("}");
    reveal_strlit("{}");
    reveal_strlit("\"");
    let members = members_of(r);
    let inner = text::joined(members, ","@);
    if r == silence() {
        assert(members =~= Seq::<Text>::empty());
        assert(envelope(r) =~= "{}"@);
    } else {
        assert(members.len() > 0);
        assert(members.last().len() > 0);
        assert(inner.len() > 0);
        assert(envelope(r).len() == inner.len() + 2);
    }
}

fn write_member(key: &str, value: &str) -> (r: String)
    ensures
        r@ == member(key@, value@),
{
    let mut out = text::owned("\"");
    out.append(key);
    out.append("\":");
    out.append(value);
    out
}

fn push_text(members: &mut Vec<String>, key: &str, value: &Option<String>)
    ensures
        text::texts(final(members)@) == text::texts(old(members)@) + text_member(
            key@,
            text::optional(*value),
        ),
{
    let ghost before = text::texts(members@);
    match value {
        None => {
            assert(before + Seq::<Text>::empty() =~= before);
        },
        Some(t) => {
            let next = write_member(key, json::quote(t.as_str()).as_str());
            assert(text::texts(members@.push(next)) =~= before + seq![next@]);
            members.push(next);
        },
    }
}

fn push_specific(members: &mut Vec<String>, specific: &Option<Specific>)
    ensures
        text::texts(final(members)@) == text::texts(old(members)@) + specific_member(
            match *specific {
                Some(specific) => Some(specific@),
                None => None,
            },
        ),
{
    let ghost before = text::texts(members@);
    match specific {
        None => {
            assert(before + Seq::<Text>::empty() =~= before);
        },
        Some(specific) => {
            let name = json::quote(specific.hook_event_name.as_str());
            let context = json::quote(specific.additional_context.as_str());
            let mut inner = text::owned("{");
            inner.append(write_member("hookEventName", name.as_str()).as_str());
            inner.append(",");
            inner.append(write_member("additionalContext", context.as_str()).as_str());
            inner.append("}");
            let next = write_member("hookSpecificOutput", inner.as_str());
            assert(text::texts(members@.push(next)) =~= before + seq![next@]);
            members.push(next);
        },
    }
}

/// The answer as JSON on one line.
pub fn to_json(response: &Response) -> (r: String)
    ensures
        r@ == envelope(response@),
{
    let mut members: Vec<String> = Vec::new();
    assert(text::texts(members@) =~= Seq::<Text>::empty());
    push_text(&mut members, "decision", &response.decision);
    push_text(&mut members, "reason", &response.reason);
    push_text(&mut members, "systemMessage", &response.system_message);
    push_specific(&mut members, &response.hook_specific_output);
    proof {
        let first = text_member("decision"@, response@.decision);
        assert(Seq::<Text>::empty() + first =~= first);
    }
    let mut out = text::owned("{");
    out.append(text::join(&members, ",").as_str());
    out.append("}");
    out
}

} // verus!

//! The stored document: a tree of heads, one type per object of the file.
//!
//! Each type has a view made of plain values and sequences of characters, and
//! every contract speaks of those views.

use vstd::prelude::*;

use crate::heads::Heads;
use crate::order;
use crate::text::{self, Text};

verus! {

/// The version of the file format that this library writes.
pub const VERSION: u32 = 1;

/// The identifier type of the `ulid` crate, carried through as it is.
#[verifier::external_type_specification]
#[verifier::external_body]
pub struct ExUlid(ulid::Ulid);

// ---------------------------------------------------------------------------
// Time
// ---------------------------------------------------------------------------

/// The first second that a timestamp of the `jiff` crate can name.
pub const FIRST_SECOND: i64 = -377_705_023_201;

/// The last second that a timestamp of the `jiff` crate can name.
pub const LAST_SECOND: i64 = 253_402_207_200;

/// A moment, as seconds since the Unix epoch and the nanoseconds past that
/// second, which carry its sign.
#[derive(Debug, Clone, Copy, PartialEq, Eq, PartialOrd, Ord, Structural)]
pub struct Timestamp {
    pub second: i64,
    pub nanosecond: i32,
}

impl Timestamp {
    /// The second is one that a timestamp can name.
    pub open spec fn in_range(self) -> bool {
        FIRST_SECOND <= self.second <= LAST_SECOND
    }

    /// A moment that falls on a second.
    pub open spec fn is_whole(self) -> bool {
        self.nanosecond == 0
    }

    pub fn subsec_nanosecond(self) -> (r: i32)
        ensures
            r == self.nanosecond,
    {
        self.nanosecond
    }
}

/// `jiff::Timestamp::now`, taken apart by `as_second` and `subsec_nanosecond`.
///
/// What the clock says is not stated, only that the reading is a timestamp: its
/// second is in range and its nanoseconds are less than a second. A clock that is
/// set beyond that range has no reading, and the call does not return.
#[verifier::external_body]
fn clock() -> (r: Timestamp)
    ensures
        r.in_range(),
        -1_000_000_000 < r.nanosecond < 1_000_000_000,
{
    let now = jiff::Timestamp::now();
    Timestamp { second: now.as_second(), nanosecond: now.subsec_nanosecond() }
}

/// `jiff::Timestamp::from_second`: the moment at which a second begins, for each
/// second in range, and an error (here `None`) for every other.
#[verifier::external_body]
fn from_second(second: i64) -> (r: Option<Timestamp>)
    ensures
        r == (if FIRST_SECOND <= second <= LAST_SECOND {
            Some(Timestamp { second, nanosecond: 0 })
        } else {
            None::<Timestamp>
        }),
{
    match jiff::Timestamp::from_second(second) {
        Ok(t) => Some(Timestamp { second: t.as_second(), nanosecond: t.subsec_nanosecond() }),
        Err(_) => None,
    }
}

/// A moment without its fraction of a second; one out of range is left alone.
pub fn truncated(at: Timestamp) -> (r: Timestamp)
    ensures
        r == (if at.in_range() {
            Timestamp { second: at.second, nanosecond: 0 }
        } else {
            at
        }),
{
    match from_second(at.second) {
        Some(whole) => whole,
        None => at,
    }
}

/// The present moment, to the second: fractions only make the history of a
/// hand-edited file louder.
pub fn now() -> (r: Timestamp)
    ensures
        r.is_whole(),
        r.in_range(),
{
    truncated(clock())
}

// ---------------------------------------------------------------------------
// Answers
// ---------------------------------------------------------------------------

/// The two states that are stored. Everything else is derived from them.
#[derive(Debug, Clone, Copy, PartialEq, Eq, Structural)]
pub enum Status {
    Open,
    Answered,
}

/// An option that was considered and killed.
#[derive(Debug, PartialEq, Eq)]
pub struct Rejected {
    pub option: String,
    pub why_not: String,
}

pub struct RejectedView {
    pub option: Text,
    pub why_not: Text,
}

impl View for Rejected {
    type V = RejectedView;

    open spec fn view(&self) -> RejectedView {
        RejectedView { option: self.option@, why_not: self.why_not@ }
    }
}

impl Clone for Rejected {
    fn clone(&self) -> (r: Self)
        ensures
            r@ == self@,
    {
        Rejected { option: self.option.clone(), why_not: self.why_not.clone() }
    }
}

#[derive(Debug, PartialEq, Eq)]
pub struct Answer {
    pub text: String,
    pub rationale: Option<String>,
    pub rejected: Vec<Rejected>,
    /// The head whose answer made the question moot.
    pub cauterised_by: Option<String>,
}

pub struct AnswerView {
    pub text: Text,
    pub rationale: Option<Text>,
    pub rejected: Seq<RejectedView>,
    pub cauterised_by: Option<Text>,
}

pub open spec fn rejections(list: Seq<Rejected>) -> Seq<RejectedView> {
    list.map_values(|r: Rejected| r@)
}

impl View for Answer {
    type V = AnswerView;

    open spec fn view(&self) -> AnswerView {
        AnswerView {
            text: self.text@,
            rationale: text::optional(self.rationale),
            rejected: rejections(self.rejected@),
            cauterised_by: text::optional(self.cauterised_by),
        }
    }
}

impl Clone for Answer {
    fn clone(&self) -> (r: Self)
        ensures
            r@ == self@,
    {
        let mut rejected: Vec<Rejected> = Vec::new();
        for i in 0..self.rejected.len()
            invariant
                rejected@.len() == i,
                forall|j: int| 0 <= j < i ==> (#[trigger] rejected@[j])@ == self.rejected@[j]@,
        {
            rejected.push(self.rejected[i].clone());
        }
        assert(rejections(rejected@) =~= rejections(self.rejected@));
        Answer {
            text: self.text.clone(),
            rationale: text::clone_option(&self.rationale),
            rejected,
            cauterised_by: text::clone_option(&self.cauterised_by),
        }
    }
}

pub open spec fn answer_view(answer: Option<Answer>) -> Option<AnswerView> {
    match answer {
        Some(a) => Some(a@),
        None => None,
    }
}

fn clone_answer(answer: &Option<Answer>) -> (r: Option<Answer>)
    ensures
        answer_view(r) == answer_view(*answer),
{
    match answer {
        Some(a) => Some(a.clone()),
        None => None,
    }
}

// ---------------------------------------------------------------------------
// Heads
// ---------------------------------------------------------------------------

/// One question, with its answer once it has one.
#[derive(Debug, PartialEq, Eq)]
pub struct Head {
    pub id: ulid::Ulid,
    pub slug: String,
    pub question: String,
    /// `None` for a root.
    pub parent: Option<String>,
    /// Orders siblings.
    pub seq: u32,
    /// The heads that have to be answered first.
    pub blocked_by: Vec<String>,
    pub status: Status,
    /// How many answers this head has been given.
    pub rev: u32,
    pub created_at: Timestamp,
    pub updated_at: Timestamp,
    pub answer: Option<Answer>,
    /// The single most recent superseded answer.
    pub prior: Option<Answer>,
}

pub struct HeadView {
    pub id: ulid::Ulid,
    pub slug: Text,
    pub question: Text,
    pub parent: Option<Text>,
    pub seq: u32,
    pub blocked_by: Seq<Text>,
    pub status: Status,
    pub rev: u32,
    pub created_at: Timestamp,
    pub updated_at: Timestamp,
    pub answer: Option<AnswerView>,
    pub prior: Option<AnswerView>,
}

impl HeadView {
    /// The same head, last written at `at`.
    pub open spec fn touched(self, at: Timestamp) -> HeadView {
        HeadView { updated_at: at, ..self }
    }

    /// The same head but for when it was last written, which is the second at
    /// which this was done, one that a timestamp can name.
    pub open spec fn now_is(self, new: HeadView) -> bool {
        &&& new == self.touched(new.updated_at)
        &&& new.updated_at.is_whole()
        &&& new.updated_at.in_range()
    }

    /// The answer that is superseded when the present one goes: the present one,
    /// or the one before it where there is none.
    pub open spec fn superseded(self) -> Option<AnswerView> {
        if self.answer is Some {
            self.answer
        } else {
            self.prior
        }
    }

    pub open spec fn answered(self, answer: AnswerView) -> HeadView {
        HeadView {
            prior: self.superseded(),
            answer: Some(answer),
            status: Status::Answered,
            rev: (self.rev + 1) as u32,
            ..self
        }
    }

    /// The head back on the frontier, with what it was answered kept as prior.
    pub open spec fn reopened(self) -> HeadView {
        HeadView { prior: self.superseded(), answer: None, status: Status::Open, ..self }
    }

    pub open spec fn reworded(self, question: Text) -> HeadView {
        HeadView { question, ..self }
    }

    pub open spec fn reseated(self, parent: Option<Text>, seq: u32) -> HeadView {
        HeadView { parent, seq, ..self }
    }

    /// The head with exactly these edges, each once, in the order of text.
    pub open spec fn gated_by(self, edges: Set<Text>) -> HeadView {
        HeadView { blocked_by: order::in_order(edges), ..self }
    }
}

impl View for Head {
    type V = HeadView;

    open spec fn view(&self) -> HeadView {
        HeadView {
            id: self.id,
            slug: self.slug@,
            question: self.question@,
            parent: text::optional(self.parent),
            seq: self.seq,
            blocked_by: text::texts(self.blocked_by@),
            status: self.status,
            rev: self.rev,
            created_at: self.created_at,
            updated_at: self.updated_at,
            answer: answer_view(self.answer),
            prior: answer_view(self.prior),
        }
    }
}

impl Clone for Head {
    fn clone(&self) -> (r: Self)
        ensures
            r@ == self@,
    {
        Head {
            id: self.id,
            slug: self.slug.clone(),
            question: self.question.clone(),
            parent: text::clone_option(&self.parent),
            seq: self.seq,
            blocked_by: text::clone_texts(&self.blocked_by),
            status: self.status,
            rev: self.rev,
            created_at: self.created_at,
            updated_at: self.updated_at,
            answer: clone_answer(&self.answer),
            prior: clone_answer(&self.prior),
        }
    }
}

impl Head {
    /// Records that the head was written at `at`.
    pub fn touch_at(&mut self, at: Timestamp)
        ensures
            final(self)@ == old(self)@.touched(at),
    {
        self.updated_at = at;
    }

    /// Records that the head was written now.
    pub fn touch(&mut self)
        ensures
            old(self)@.now_is(final(self)@),
    {
        let at = now();
        self.touch_at(at);
    }

    /// Every answer goes through here: what it supersedes becomes `prior`, and
    /// `rev` counts it.
    pub fn set_answer(&mut self, answer: Answer)
        requires
            old(self)@.rev < u32::MAX,
        ensures
            old(self)@.answered(answer@).now_is(final(self)@),
    {
        let old_answer = self.answer.take();
        if old_answer.is_some() {
            self.prior = old_answer;
        }
        self.answer = Some(answer);
        self.status = Status::Answered;
        self.rev = self.rev + 1;
        self.touch();
    }

    /// Takes an answered head back to open and says so; an open one is left
    /// alone. What was answered is kept as `prior`.
    ///
    /// The stored state decides, not the presence of an answer, so that an
    /// answered head that lost its answer to a hand edit is reopened too.
    pub fn reopen(&mut self) -> (r: bool)
        ensures
            r == (old(self)@.status == Status::Answered),
            r ==> old(self)@.reopened().now_is(final(self)@),
            !r ==> final(self)@ == old(self)@,
    {
        match self.status {
            Status::Open => false,
            Status::Answered => {
                let old_answer = self.answer.take();
                if old_answer.is_some() {
                    self.prior = old_answer;
                }
                self.status = Status::Open;
                self.touch();
                true
            },
        }
    }

    pub fn set_question(&mut self, question: String)
        ensures
            old(self)@.reworded(question@).now_is(final(self)@),
    {
        self.question = question;
        self.touch();
    }

    pub fn set_parent(&mut self, parent: Option<String>, seq: u32)
        ensures
            old(self)@.reseated(text::optional(parent), seq).now_is(final(self)@),
    {
        self.parent = parent;
        self.seq = seq;
        self.touch();
    }

    /// Replaces the edges, sorted and without repetitions.
    pub fn set_blocked_by(&mut self, edges: Vec<String>)
        ensures
            old(self)@.gated_by(text::texts(edges@).to_set()).now_is(final(self)@),
    {
        self.blocked_by = order::canonical(edges);
        self.touch();
    }
}

// ---------------------------------------------------------------------------
// Trees
// ---------------------------------------------------------------------------

/// The heads of a tree, by slug.
pub type Graph = Map<Text, HeadView>;

#[derive(Debug, PartialEq, Eq)]
pub struct Tree {
    pub version: u32,
    pub slug: String,
    /// What the interview is for. Empty in a tree that predates the field.
    pub intent: String,
    pub created_at: Timestamp,
    pub heads: Heads,
}

pub struct TreeView {
    pub version: u32,
    pub slug: Text,
    pub intent: Text,
    pub created_at: Timestamp,
    pub heads: Graph,
}

impl View for Tree {
    type V = TreeView;

    open spec fn view(&self) -> TreeView {
        TreeView {
            version: self.version,
            slug: self.slug@,
            intent: self.intent@,
            created_at: self.created_at,
            heads: self.heads@,
        }
    }
}

impl TreeView {
    /// The same tree with other heads.
    pub open spec fn with_heads(self, heads: Graph) -> TreeView {
        TreeView { heads, ..self }
    }

    /// A tree without heads.
    pub open spec fn empty(slug: Text, intent: Text, created_at: Timestamp) -> TreeView {
        TreeView { version: VERSION, slug, intent, created_at, heads: Map::empty() }
    }
}

impl Clone for Tree {
    fn clone(&self) -> (r: Self)
        ensures
            r@ == self@,
    {
        Tree {
            version: self.version,
            slug: self.slug.clone(),
            intent: self.intent.clone(),
            created_at: self.created_at,
            heads: self.heads.clone(),
        }
    }
}

impl Tree {
    /// A tree without heads and without an intent.
    pub fn new(slug: String) -> (r: Self)
        ensures
            r@ == TreeView::empty(slug@, Seq::empty(), r@.created_at),
            r@.created_at.is_whole(),
            r@.created_at.in_range(),
    {
        Tree::with_intent(slug, String::new())
    }

    /// A tree without heads.
    pub fn with_intent(slug: String, intent: String) -> (r: Self)
        ensures
            r@ == TreeView::empty(slug@, intent@, r@.created_at),
            r@.created_at.is_whole(),
            r@.created_at.in_range(),
    {
        Tree { version: VERSION, slug, intent, created_at: now(), heads: Heads::new() }
    }
}

} // verus!

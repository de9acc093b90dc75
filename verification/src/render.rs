//! The tree drawn for eyes: one row per head, nesting as connectors, and a
//! summary of each head in one column.

use vstd::prelude::*;

use crate::model::{Graph, HeadView, Tree, TreeView};
use crate::preorder::{self as reading, Visit};
use crate::query::{self, State};
use crate::state as derived;
use crate::text::{self, Text};

verus! {

/// What the summary column says of the head that comes next.
pub const NEXT: &'static str = "← next";

/// The connector of a head that others follow under the same parent, and of one
/// that closes them off.
pub const TEE: &'static str = "├── ";

pub const ELBOW: &'static str = "└── ";

/// What stands below a connector: a bar while others are to follow, and a blank
/// once they are closed off.
pub const BAR: &'static str = "│   ";

pub const GAP: &'static str = "    ";

/// The blank columns behind the longest label.
pub const GUTTER: usize = 3;

/// How connectors and summaries are painted: they are context.
pub const STRUCTURE: &'static str = "2";

/// How the mark of the next head is painted.
pub const MARKER: &'static str = "1";

/// Whether to dress the drawing in ANSI escapes.
#[derive(Debug, Clone, Copy, PartialEq, Eq, Structural)]
pub enum Colour {
    Plain,
    Ansi,
}

/// The colour of a drawing: escapes are for a terminal, and for none where the
/// variable `NO_COLOR` is set to anything but the empty text.
pub fn colour_for(terminal: bool, no_color: Option<&str>) -> (r: Colour)
    ensures
        r == (if terminal && (match no_color {
            Some(value) => value@.len() == 0,
            None => true,
        }) {
            Colour::Ansi
        } else {
            Colour::Plain
        }),
{
    let forbidden = match no_color {
        Some(value) => value.unicode_len() > 0,
        None => false,
    };
    if terminal && !forbidden {
        Colour::Ansi
    } else {
        Colour::Plain
    }
}

// ---------------------------------------------------------------------------
// Paint
// ---------------------------------------------------------------------------

pub open spec fn painted(colour: Colour, sgr: Text, t: Text) -> Text {
    match colour {
        Colour::Plain => t,
        Colour::Ansi => "\x1b["@ + sgr + "m"@ + t + "\x1b[0m"@,
    }
}

pub open spec fn glyph_of(state: State) -> char {
    match state {
        State::Answered => '●',
        State::Ready => '○',
        State::Blocked => '◌',
        State::Cauterised => '⊘',
    }
}

pub open spec fn sgr_of(state: State) -> Text {
    match state {
        State::Answered => "32"@,
        State::Ready => "1;36"@,
        State::Blocked => "33"@,
        State::Cauterised => "2;31"@,
    }
}

impl Colour {
    fn paint(self, sgr: &str, t: &str) -> (r: String)
        ensures
            r@ == painted(self, sgr@, t@),
    {
        match self {
            Colour::Plain => text::owned(t),
            Colour::Ansi => {
                let mut out = text::owned("\x1b[");
                out.append(sgr);
                out.append("m");
                out.append(t);
                out.append("\x1b[0m");
                out
            },
        }
    }
}

/// The mark of a state.
pub fn glyph(state: State) -> (r: char)
    ensures
        r == glyph_of(state),
{
    match state {
        State::Answered => '●',
        State::Ready => '○',
        State::Blocked => '◌',
        State::Cauterised => '⊘',
    }
}

fn state_sgr(state: State) -> (r: &'static str)
    ensures
        r@ == sgr_of(state),
{
    match state {
        State::Answered => "32",
        State::Ready => "1;36",
        State::Blocked => "33",
        State::Cauterised => "2;31",
    }
}

// ---------------------------------------------------------------------------
// Connectors
// ---------------------------------------------------------------------------

/// Below the `i`th row comes one at depth `d` before any that lies higher, so a
/// bar at that depth has something to lead to.
pub open spec fn open_below(stops: Seq<reading::Stop>, i: int, d: nat) -> bool {
    exists|j: int|
        #![trigger stops[j]]
        {
            &&& i < j < stops.len()
            &&& stops[j].1 == d
            &&& forall|k: int| i < k < j ==> (#[trigger] stops[k]).1 > d
        }
}

/// The bars and blanks of the `i`th row at the first `n` depths.
pub open spec fn rails(stops: Seq<reading::Stop>, i: int, n: nat) -> Text
    decreases n,
{
    if n == 0 {
        Seq::empty()
    } else {
        let d = (n - 1) as nat;
        rails(stops, i, d) + (if open_below(stops, i, d) {
            BAR@
        } else {
            GAP@
        })
    }
}

/// Everything in front of the glyph of the `i`th row.
pub open spec fn prefix_of(stops: Seq<reading::Stop>, i: int) -> Text {
    rails(stops, i, stops[i].1) + (if open_below(stops, i, stops[i].1) {
        TEE@
    } else {
        ELBOW@
    })
}

fn is_open_below(visits: &Vec<Visit>, i: usize, d: usize) -> (r: bool)
    requires
        i < visits@.len(),
    ensures
        r == open_below(reading::stops(visits@), i as int, d as nat),
{
    let ghost stops = reading::stops(visits@);
    let count: usize = visits.len();
    let mut j: usize = i + 1;
    while j < count && visits[j].depth > d
        invariant
            stops == reading::stops(visits@),
            count == visits@.len(),
            i < j <= count,
            forall|k: int| i < k < j ==> (#[trigger] stops[k]).1 > d,
        decreases visits@.len() - j,
    {
        assert(stops[j as int].1 == visits@[j as int].depth);
        j = j + 1;
    }
    if j < count && visits[j].depth == d {
        assert(stops[j as int].1 == d);
        true
    } else {
        proof {
            if open_below(stops, i as int, d as nat) {
                let other = choose|other: int|
                    #![trigger stops[other]]
                    {
                        &&& i < other < stops.len()
                        &&& stops[other].1 == d
                        &&& forall|k: int| i < k < other ==> (#[trigger] stops[k]).1 > d
                    };
                if other < j {
                    assert(stops[other].1 > d);
                } else {
                    assert(stops[j as int].1 == visits@[j as int].depth);
                    if j < other {
                        assert(stops[j as int].1 > d);
                    }
                }
            }
        }
        false
    }
}

fn prefix(visits: &Vec<Visit>, i: usize) -> (r: String)
    requires
        i < visits@.len(),
    ensures
        r@ == prefix_of(reading::stops(visits@), i as int),
{
    let ghost stops = reading::stops(visits@);
    let mut out = String::new();
    let depth = visits[i].depth;
    assert(out@ =~= rails(stops, i as int, 0));
    for d in 0..depth
        invariant
            stops == reading::stops(visits@),
            i < visits@.len(),
            out@ == rails(stops, i as int, d as nat),
    {
        if is_open_below(visits, i, d) {
            out.append(BAR);
        } else {
            out.append(GAP);
        }
        assert(out@ == rails(stops, i as int, (d + 1) as nat));
    }
    assert(stops[i as int].1 == depth);
    if is_open_below(visits, i, depth) {
        out.append(TEE);
    } else {
        out.append(ELBOW);
    }
    out
}

// ---------------------------------------------------------------------------
// Summaries
// ---------------------------------------------------------------------------

/// Why a head is settled or held back: what killed it, the first line of its
/// answer, or the blockers it waits for. A head that is ready has none.
pub open spec fn summary_of(g: Graph, head: HeadView) -> Text {
    match derived::state_of(g, head) {
        State::Cauterised => match head.answer {
            Some(answer) => match answer.cauterised_by {
                Some(by) => "cauterised by "@ + by,
                None => "cauterised by "@,
            },
            None => "cauterised by "@,
        },
        State::Answered => match head.answer {
            Some(answer) => query::first_line_of(answer.text),
            None => Seq::empty(),
        },
        State::Blocked => "blocked by "@ + text::joined(derived::unmet_blockers(g, head), ", "@),
        State::Ready => Seq::empty(),
    }
}

fn summary(tree: &Tree, visit: &Visit, state: State) -> (r: String)
    requires
        state == derived::state_of(tree@.heads, visit.head@),
    ensures
        r@ == summary_of(tree@.heads, visit.head@),
{
    match state {
        State::Cauterised => {
            let mut out = text::owned("cauterised by ");
            match &visit.head.answer {
                Some(answer) => match &answer.cauterised_by {
                    Some(by) => out.append(by.as_str()),
                    None => {},
                },
                None => {},
            }
            out
        },
        State::Answered => match &visit.head.answer {
            Some(answer) => text::owned(query::first_line(answer.text.as_str())),
            None => String::new(),
        },
        State::Blocked => {
            let mut out = text::owned("blocked by ");
            out.append(
                text::join(&query::open_blockers(tree, visit.head), ", ").as_str(),
            );
            out
        },
        State::Ready => String::new(),
    }
}

// ---------------------------------------------------------------------------
// Rows
// ---------------------------------------------------------------------------

struct Row {
    prefix: String,
    state: State,
    slug: String,
    summary: String,
    next: bool,
    /// How many characters stand in front of the summary column. Characters and
    /// not bytes: rows at different depths hold different numbers of connectors,
    /// and each of those takes more bytes than columns.
    width: usize,
}

pub struct RowView {
    pub prefix: Text,
    pub state: State,
    pub slug: Text,
    pub summary: Text,
    pub next: bool,
}

impl RowView {
    /// What stands in front of the summary column, unpainted.
    pub open spec fn label(self) -> Text {
        self.prefix.push(glyph_of(self.state)).push(' ') + self.slug
    }
}

impl Row {
    spec fn view(self) -> RowView {
        RowView {
            prefix: self.prefix@,
            state: self.state,
            slug: self.slug@,
            summary: self.summary@,
            next: self.next,
        }
    }

    spec fn measured(self) -> bool {
        self.width == self.view().label().len()
    }
}

spec fn row_views(rows: Seq<Row>) -> Seq<RowView> {
    rows.map_values(|row: Row| row.view())
}

/// The `i`th row of a tree. The mark of the next head takes the place of a
/// summary, which a head that can be asked does not have.
pub open spec fn row_of(g: Graph, i: int) -> RowView {
    let stops = reading::outline(g);
    let slug = stops[i].0;
    let next = query::next_of(g) == Some(slug);
    RowView {
        prefix: prefix_of(stops, i),
        state: derived::state_of(g, g[slug]),
        slug,
        summary: if next {
            NEXT@
        } else {
            summary_of(g, g[slug])
        },
        next,
    }
}

pub open spec fn rows_of(g: Graph) -> Seq<RowView> {
    Seq::new(reading::outline(g).len(), |i: int| row_of(g, i))
}

/// The length of the longest of the first `n` labels.
pub open spec fn widest(rows: Seq<RowView>, n: nat) -> nat
    decreases n,
{
    if n == 0 {
        0
    } else {
        let before = widest(rows, (n - 1) as nat);
        let this = rows[n - 1].label().len();
        if this > before {
            this
        } else {
            before
        }
    }
}

/// The label of a row as it is drawn.
pub open spec fn label_of(colour: Colour, row: RowView) -> Text {
    painted(colour, STRUCTURE@, row.prefix) + painted(
        colour,
        sgr_of(row.state),
        seq![glyph_of(row.state)],
    ) + seq![' '] + row.slug
}

/// What stands behind the label: nothing, or the summary in its column.
pub open spec fn column_of(colour: Colour, row: RowView, longest: nat) -> Text {
    if row.summary.len() == 0 {
        Seq::empty()
    } else {
        text::spaces((longest - row.label().len() + GUTTER) as nat) + painted(
            colour,
            if row.next {
                MARKER@
            } else {
                STRUCTURE@
            },
            row.summary,
        )
    }
}

pub open spec fn line_of(colour: Colour, row: RowView, longest: nat) -> Text {
    label_of(colour, row) + column_of(colour, row, longest) + seq!['\n']
}

/// The header, which every root hangs off.
pub open spec fn header_of(tree: TreeView) -> Text {
    let counts = query::counts_of(tree);
    tree.slug + "  ("@ + text::decimal(counts.answered) + " answered, "@ + text::decimal(
        counts.open,
    ) + " open)\n"@
}

pub open spec fn lines_of(colour: Colour, rows: Seq<RowView>) -> Seq<Text> {
    rows.map_values(|row: RowView| line_of(colour, row, widest(rows, rows.len())))
}

/// The drawing of a tree.
pub open spec fn drawing(tree: TreeView, colour: Colour) -> Text {
    header_of(tree) + text::concat(lines_of(colour, rows_of(tree.heads)))
}

fn build_row(tree: &Tree, visits: &Vec<Visit>, i: usize, next: Option<&str>) -> (r: Row)
    requires
        i < visits@.len(),
        reading::stops(visits@) == reading::outline(tree@.heads),
        reading::reads(tree@.heads, visits@),
        text::optional_str(next) == query::next_of(tree@.heads),
    ensures
        r.view() == row_of(tree@.heads, i as int),
        r.measured(),
{
    let visit = &visits[i];
    assert(reading::stops(visits@)[i as int].0 == visit.slug@);
    let state = query::state(tree, visit.head);
    let prefix = prefix(visits, i);
    let is_next = match next {
        Some(slug) => text::same(slug, visit.slug),
        None => false,
    };
    let summary = if is_next {
        text::owned(NEXT)
    } else {
        summary(tree, visit, state)
    };
    let mut label = prefix.clone();
    label.push(glyph(state));
    label.push(' ');
    label.append(visit.slug);
    let width = label.as_str().unicode_len();
    Row { prefix, state, slug: text::owned(visit.slug), summary, next: is_next, width }
}

fn push_label(out: &mut String, row: &Row, colour: Colour)
    ensures
        final(out)@ == old(out)@ + label_of(colour, row.view()),
{
    let ghost start = out@;
    let ghost view = row.view();
    out.append(colour.paint(STRUCTURE, row.prefix.as_str()).as_str());
    let mut mark = String::new();
    mark.push(glyph(row.state));
    assert(mark@ =~= seq![glyph_of(row.state)]);
    out.append(colour.paint(state_sgr(row.state), mark.as_str()).as_str());
    out.push(' ');
    out.append(row.slug.as_str());
    assert(out@ =~= start + label_of(colour, view));
}

fn push_column(out: &mut String, row: &Row, colour: Colour, longest: usize)
    requires
        row.measured(),
        row.width <= longest,
    ensures
        final(out)@ == old(out)@ + column_of(colour, row.view(), longest as nat),
{
    let ghost start = out@;
    let ghost view = row.view();
    if row.summary.as_str().unicode_len() > 0 {
        let sgr = if row.next {
            MARKER
        } else {
            STRUCTURE
        };
        text::push_spaces(out, longest - row.width);
        text::push_spaces(out, GUTTER);
        out.append(colour.paint(sgr, row.summary.as_str()).as_str());
        proof {
            let n = (longest - row.width) as nat;
            assert(text::spaces(n) + text::spaces(GUTTER as nat) =~= text::spaces(n + GUTTER as nat));
            assert(out@ =~= start + (text::spaces(n + GUTTER as nat) + painted(
                colour,
                sgr@,
                view.summary,
            )));
        }
    } else {
        assert(start + Seq::<char>::empty() =~= start);
    }
}

fn push_line(out: &mut String, row: &Row, colour: Colour, longest: usize)
    requires
        row.measured(),
        row.width <= longest,
    ensures
        final(out)@ == old(out)@ + line_of(colour, row.view(), longest as nat),
{
    let ghost start = out@;
    let ghost label = label_of(colour, row.view());
    let ghost column = column_of(colour, row.view(), longest as nat);
    push_label(out, row, colour);
    push_column(out, row, colour, longest);
    out.push('\n');
    assert(start + label + column + seq!['\n'] =~= start + (label + column + seq!['\n']));
}

/// One more line at the end of those already drawn.
proof fn lemma_one_more_line(start: Text, lines: Seq<Text>, i: int)
    requires
        0 <= i < lines.len(),
    ensures
        start + text::concat(lines.take(i)) + lines[i] == start + text::concat(lines.take(i + 1)),
{
    let drawn = lines.take(i + 1);
    assert(drawn.drop_last() =~= lines.take(i));
    assert(drawn.last() == lines[i]);
    let before = text::concat(lines.take(i));
    assert(start + before + lines[i] =~= start + (before + lines[i]));
}

fn push_lines(out: &mut String, rows: &Vec<Row>, colour: Colour, longest: usize)
    requires
        longest == widest(row_views(rows@), rows@.len()),
        forall|j: int|
            0 <= j < rows@.len() ==> (#[trigger] rows@[j]).measured() && rows@[j].width <= longest,
    ensures
        final(out)@ == old(out)@ + text::concat(lines_of(colour, row_views(rows@))),
{
    let ghost start = out@;
    let ghost lines = lines_of(colour, row_views(rows@));
    assert(start + text::concat(lines.take(0)) =~= start);
    assert forall|j: int| 0 <= j < rows@.len() implies #[trigger] lines[j] == line_of(
        colour,
        rows@[j].view(),
        longest as nat,
    ) by {
        assert(row_views(rows@)[j] == rows@[j].view());
    }
    for i in 0..rows.len()
        invariant
            lines.len() == rows@.len(),
            forall|j: int|
                0 <= j < rows@.len() ==> (#[trigger] rows@[j]).measured() && rows@[j].width
                    <= longest,
            forall|j: int|
                0 <= j < rows@.len() ==> #[trigger] lines[j] == line_of(
                    colour,
                    rows@[j].view(),
                    longest as nat,
                ),
            out@ == start + text::concat(lines.take(i as int)),
    {
        push_line(out, &rows[i], colour, longest);
        proof {
            lemma_one_more_line(start, lines, i as int);
        }
    }
    assert(lines.take(rows@.len() as int) =~= lines);
}

/// Draws a tree.
pub fn render(tree: &Tree, colour: Colour) -> (r: String)
    ensures
        r@ == drawing(tree@, colour),
{
    let ghost g = tree@.heads;
    let counts = query::status(tree);
    let next = query::next_slug(tree);
    let visits = query::preorder(tree);
    let ghost want = rows_of(g);
    let mut rows: Vec<Row> = Vec::new();
    let mut longest: usize = 0;
    proof {
        assert(reading::stops(visits@).len() == visits@.len());
    }
    for i in 0..visits.len()
        invariant
            g == tree@.heads,
            want == rows_of(g),
            want.len() == visits@.len(),
            reading::stops(visits@) == reading::outline(g),
            reading::reads(g, visits@),
            text::optional_str(next) == query::next_of(g),
            rows@.len() == i,
            forall|j: int|
                0 <= j < i ==> {
                    &&& (#[trigger] rows@[j]).view() == want[j]
                    &&& rows@[j].measured()
                    &&& rows@[j].width <= longest
                },
            longest == widest(want, i as nat),
    {
        let row = build_row(tree, &visits, i, next);
        assert(want[i as int] == row.view());
        if row.width > longest {
            longest = row.width;
        }
        assert(longest == widest(want, (i + 1) as nat));
        rows.push(row);
    }
    let mut out = tree.slug.clone();
    out.append("  (");
    out.append(text::decimal_of(counts.answered as u64).as_str());
    out.append(" answered, ");
    out.append(text::decimal_of(counts.open as u64).as_str());
    out.append(" open)\n");
    assert(out@ == header_of(tree@));
    assert(row_views(rows@) =~= want);
    push_lines(&mut out, &rows, colour, longest);
    out
}

// ---------------------------------------------------------------------------
// Paint does not move anything
// ---------------------------------------------------------------------------

/// What follows the first `m` of a text, which ends an escape sequence.
pub open spec fn after_escape(t: Text) -> Text
    decreases t.len(),
{
    if t.len() == 0 {
        t
    } else if t[0] == 'm' {
        t.skip(1)
    } else {
        after_escape(t.skip(1))
    }
}

proof fn lemma_escape_ends(t: Text)
    ensures
        after_escape(t).len() <= t.len(),
    decreases t.len(),
{
    if t.len() > 0 && t[0] != 'm' {
        lemma_escape_ends(t.skip(1));
    }
}

/// A text as a terminal shows it: without its escape sequences.
pub open spec fn stripped(t: Text) -> Text
    decreases t.len(),
    via stripped_ends
{
    if t.len() == 0 {
        t
    } else if t[0] == '\x1b' {
        stripped(after_escape(t.skip(1)))
    } else {
        seq![t[0]] + stripped(t.skip(1))
    }
}

#[via_fn]
proof fn stripped_ends(t: Text) {
    if t.len() > 0 {
        lemma_escape_ends(t.skip(1));
    }
}

pub open spec fn unescaped(t: Text) -> bool {
    forall|i: int| 0 <= i < t.len() ==> #[trigger] t[i] != '\x1b'
}

proof fn lemma_strip_plain(t: Text, rest: Text)
    requires
        unescaped(t),
    ensures
        stripped(t + rest) == t + stripped(rest),
    decreases t.len(),
{
    if t.len() == 0 {
        assert(t + rest =~= rest);
        assert(t + stripped(rest) =~= stripped(rest));
    } else {
        let tail = t.skip(1);
        assert(t[0] != '\x1b');
        assert((t + rest)[0] == t[0]);
        assert((t + rest).skip(1) =~= tail + rest);
        assert forall|i: int| 0 <= i < tail.len() implies #[trigger] tail[i] != '\x1b' by {
            assert(t[i + 1] != '\x1b');
        }
        lemma_strip_plain(tail, rest);
        assert(seq![t[0]] + (tail + stripped(rest)) =~= t + stripped(rest));
    }
}

/// A text without an `m` in front of one is skipped together with it.
proof fn lemma_skip_escape(t: Text, rest: Text)
    requires
        forall|i: int| 0 <= i < t.len() ==> #[trigger] t[i] != 'm',
    ensures
        after_escape(t + seq!['m'] + rest) == rest,
    decreases t.len(),
{
    let all = t + seq!['m'] + rest;
    if t.len() == 0 {
        assert(all[0] == 'm');
        assert(all.skip(1) =~= rest);
    } else {
        let tail = t.skip(1);
        assert(all[0] == t[0]);
        assert(all.skip(1) =~= tail + seq!['m'] + rest);
        assert forall|i: int| 0 <= i < tail.len() implies #[trigger] tail[i] != 'm' by {
            assert(t[i + 1] != 'm');
        }
        lemma_skip_escape(tail, rest);
    }
}

proof fn lemma_strip_paint(sgr: Text, t: Text, rest: Text)
    requires
        unescaped(t),
        forall|i: int| 0 <= i < sgr.len() ==> #[trigger] sgr[i] != 'm',
    ensures
        stripped(painted(Colour::Ansi, sgr, t) + rest) == t + stripped(rest),
{
    reveal_strlit("\x1b[");
    reveal_strlit("m");
    reveal_strlit("\x1b[0m");
    let close = "\x1b[0m"@ + rest;
    let all = painted(Colour::Ansi, sgr, t) + rest;
    let open = seq!['['] + sgr;
    assert forall|i: int| 0 <= i < open.len() implies #[trigger] open[i] != 'm' by {
        if i > 0 {
            assert(open[i] == sgr[i - 1]);
        }
    }
    assert(all[0] == '\x1b');
    assert(all.skip(1) =~= open + seq!['m'] + (t + close));
    lemma_skip_escape(open, t + close);
    lemma_strip_plain(t, close);
    let reset = seq!['[', '0'];
    assert(close[0] == '\x1b');
    assert(close.skip(1) =~= reset + seq!['m'] + rest);
    lemma_skip_escape(reset, rest);
}

/// Nothing that a row shows holds an escape.
pub open spec fn unescaped_row(row: RowView) -> bool {
    unescaped(row.prefix) && unescaped(row.slug) && unescaped(row.summary)
}

proof fn lemma_sgr(state: State)
    ensures
        forall|i: int| 0 <= i < sgr_of(state).len() ==> #[trigger] sgr_of(state)[i] != 'm',
        forall|i: int| 0 <= i < STRUCTURE@.len() ==> #[trigger] STRUCTURE@[i] != 'm',
        forall|i: int| 0 <= i < MARKER@.len() ==> #[trigger] MARKER@[i] != 'm',
{
    reveal_strlit("32");
    reveal_strlit("1;36");
    reveal_strlit("33");
    reveal_strlit("2;31");
    reveal_strlit("2");
    reveal_strlit("1");
}

proof fn lemma_strip_label(row: RowView, rest: Text)
    requires
        unescaped_row(row),
    ensures
        stripped(label_of(Colour::Ansi, row) + rest) == label_of(Colour::Plain, row) + stripped(
            rest,
        ),
{
    lemma_sgr(row.state);
    let mark = seq![glyph_of(row.state)];
    let slug = seq![' '] + row.slug;
    let a = painted(Colour::Ansi, STRUCTURE@, row.prefix);
    let b = painted(Colour::Ansi, sgr_of(row.state), mark);
    assert(label_of(Colour::Ansi, row) + rest =~= a + (b + (slug + rest)));
    lemma_strip_plain(slug, rest);
    lemma_strip_paint(sgr_of(row.state), mark, slug + rest);
    lemma_strip_paint(STRUCTURE@, row.prefix, b + (slug + rest));
    assert(label_of(Colour::Plain, row) + stripped(rest) =~= row.prefix + (mark + (slug + stripped(
        rest,
    ))));
}

proof fn lemma_strip_column(row: RowView, longest: nat, rest: Text)
    requires
        unescaped_row(row),
    ensures
        stripped(column_of(Colour::Ansi, row, longest) + rest) == column_of(
            Colour::Plain,
            row,
            longest,
        ) + stripped(rest),
{
    lemma_sgr(row.state);
    let none = Seq::<char>::empty();
    if row.summary.len() == 0 {
        assert(none + rest =~= rest);
        assert(none + stripped(rest) =~= stripped(rest));
    } else {
        let pad = text::spaces((longest - row.label().len() + GUTTER) as nat);
        let sgr = if row.next {
            MARKER@
        } else {
            STRUCTURE@
        };
        let c = painted(Colour::Ansi, sgr, row.summary);
        assert(column_of(Colour::Ansi, row, longest) + rest =~= pad + (c + rest));
        lemma_strip_paint(sgr, row.summary, rest);
        lemma_strip_plain(pad, c + rest);
        assert(column_of(Colour::Plain, row, longest) + stripped(rest) =~= pad + (row.summary
            + stripped(rest)));
    }
}

proof fn lemma_strip_line(row: RowView, longest: nat, rest: Text)
    requires
        unescaped_row(row),
    ensures
        stripped(line_of(Colour::Ansi, row, longest) + rest) == line_of(Colour::Plain, row, longest)
            + stripped(rest),
{
    let end = seq!['\n'];
    let column = column_of(Colour::Ansi, row, longest);
    lemma_strip_plain(end, rest);
    lemma_strip_column(row, longest, end + rest);
    lemma_strip_label(row, column + (end + rest));
    assert(line_of(Colour::Ansi, row, longest) + rest =~= label_of(Colour::Ansi, row) + (column + (end
        + rest)));
    assert(line_of(Colour::Plain, row, longest) + stripped(rest) =~= label_of(Colour::Plain, row) + (
    column_of(Colour::Plain, row, longest) + (end + stripped(rest))));
}

proof fn lemma_strip_lines(rows: Seq<RowView>, longest: nat, n: nat, rest: Text)
    requires
        n <= rows.len(),
        forall|i: int| 0 <= i < rows.len() ==> unescaped_row(#[trigger] rows[i]),
        longest == widest(rows, rows.len()),
    ensures
        stripped(text::concat(lines_of(Colour::Ansi, rows).take(n as int)) + rest) == text::concat(
            lines_of(Colour::Plain, rows).take(n as int),
        ) + stripped(rest),
    decreases n,
{
    let painted_lines = lines_of(Colour::Ansi, rows);
    let plain_lines = lines_of(Colour::Plain, rows);
    if n == 0 {
        assert(text::concat(painted_lines.take(0)) + rest =~= rest);
        assert(text::concat(plain_lines.take(0)) + stripped(rest) =~= stripped(rest));
    } else {
        let m = (n - 1) as nat;
        let row = rows[m as int];
        let fancy = painted_lines.take(n as int);
        let plain = plain_lines.take(n as int);
        assert(fancy.drop_last() =~= painted_lines.take(m as int));
        assert(plain.drop_last() =~= plain_lines.take(m as int));
        let line = line_of(Colour::Ansi, row, longest);
        assert(fancy.last() == line);
        assert(plain.last() == line_of(Colour::Plain, row, longest));
        lemma_strip_line(row, longest, rest);
        lemma_strip_lines(rows, longest, m, line + rest);
        assert(text::concat(fancy) + rest =~= text::concat(fancy.drop_last()) + (line + rest));
        assert(text::concat(plain) + stripped(rest) =~= text::concat(plain.drop_last()) + (line_of(
            Colour::Plain,
            row,
            longest,
        ) + stripped(rest)));
    }
}

proof fn lemma_decimal_is_unescaped(n: nat)
    ensures
        unescaped(text::decimal(n)),
    decreases n,
{
    if n >= 10 {
        lemma_decimal_is_unescaped(n / 10);
    }
}

proof fn lemma_rails_are_unescaped(stops: Seq<reading::Stop>, i: int, n: nat)
    ensures
        unescaped(rails(stops, i, n)),
    decreases n,
{
    reveal_strlit("│   ");
    reveal_strlit("    ");
    if n > 0 {
        lemma_rails_are_unescaped(stops, i, (n - 1) as nat);
    }
}

/// No slug of the tree and no summary in it holds an escape of its own.
pub open spec fn unescaped_tree(tree: TreeView) -> bool {
    let g = tree.heads;
    &&& unescaped(tree.slug)
    &&& forall|slug: Text| #[trigger]
        g.dom().contains(slug) ==> unescaped(slug) && unescaped(summary_of(g, g[slug]))
}

proof fn lemma_rows_are_unescaped(tree: TreeView)
    requires
        tree.heads.dom().finite(),
        unescaped_tree(tree),
    ensures
        forall|i: int|
            0 <= i < rows_of(tree.heads).len() ==> unescaped_row(
                #[trigger] rows_of(tree.heads)[i],
            ),
{
    let g = tree.heads;
    let rows = rows_of(g);
    let stops = reading::outline(g);
    reading::every_head_is_read_once(g);
    assert forall|i: int| 0 <= i < rows.len() implies unescaped_row(#[trigger] rows[i]) by {
        let slug = stops[i].0;
        assert(reading::slugs_of(stops)[i] == slug);
        assert(reading::slugs_of(stops).to_set().contains(slug));
        lemma_rails_are_unescaped(stops, i, stops[i].1);
        reveal_strlit("├── ");
        reveal_strlit("└── ");
        reveal_strlit("← next");
    }
}

proof fn lemma_header_is_unescaped(tree: TreeView)
    requires
        unescaped(tree.slug),
    ensures
        unescaped(header_of(tree)),
{
    let counts = query::counts_of(tree);
    reveal_strlit("  (");
    reveal_strlit(" answered, ");
    reveal_strlit(" open)\n");
    lemma_decimal_is_unescaped(counts.answered);
    lemma_decimal_is_unescaped(counts.open);
}

/// The coloured drawing, as a terminal shows it, is the plain one: colour moves
/// nothing.
pub proof fn colour_moves_nothing(tree: TreeView)
    requires
        tree.heads.dom().finite(),
        unescaped_tree(tree),
    ensures
        stripped(drawing(tree, Colour::Ansi)) == drawing(tree, Colour::Plain),
{
    let rows = rows_of(tree.heads);
    let fancy = lines_of(Colour::Ansi, rows);
    let plain = lines_of(Colour::Plain, rows);
    lemma_rows_are_unescaped(tree);
    lemma_header_is_unescaped(tree);
    lemma_strip_plain(header_of(tree), text::concat(fancy));
    lemma_strip_lines(rows, widest(rows, rows.len()), rows.len(), Seq::empty());
    assert(fancy.take(rows.len() as int) =~= fancy);
    assert(plain.take(rows.len() as int) =~= plain);
    assert(text::concat(fancy) + Seq::<char>::empty() =~= text::concat(fancy));
    assert(text::concat(plain) + stripped(Seq::empty()) =~= text::concat(plain));
}

proof fn lemma_widest(rows: Seq<RowView>, n: nat, i: int)
    requires
        n <= rows.len(),
        0 <= i < n,
    ensures
        rows[i].label().len() <= widest(rows, n),
    decreases n,
{
    if i < n - 1 {
        lemma_widest(rows, (n - 1) as nat, i);
    }
}

/// Every summary begins in the same column, which lies behind the longest label.
pub proof fn summaries_share_a_column(rows: Seq<RowView>, i: int)
    requires
        0 <= i < rows.len(),
        rows[i].summary.len() > 0,
    ensures
        ({
            let column = widest(rows, rows.len()) + GUTTER;
            let line = lines_of(Colour::Plain, rows)[i];
            &&& column + rows[i].summary.len() <= line.len()
            &&& line.subrange(column as int, (column + rows[i].summary.len()) as int)
                == rows[i].summary
        }),
{
    let row = rows[i];
    let longest = widest(rows, rows.len());
    lemma_widest(rows, rows.len(), i);
    let line = line_of(Colour::Plain, row, longest);
    assert(lines_of(Colour::Plain, rows)[i] == line);
    let label = label_of(Colour::Plain, row);
    assert(label =~= row.label());
    let column = (longest + GUTTER) as int;
    assert(line.subrange(column, column + row.summary.len()) =~= row.summary);
}

proof fn lemma_concat_is_unescaped(parts: Seq<Text>)
    requires
        forall|i: int| 0 <= i < parts.len() ==> unescaped(#[trigger] parts[i]),
    ensures
        unescaped(text::concat(parts)),
    decreases parts.len(),
{
    if parts.len() > 0 {
        let front = parts.drop_last();
        assert forall|i: int| 0 <= i < front.len() implies unescaped(#[trigger] front[i]) by {
            assert(front[i] == parts[i]);
        }
        lemma_concat_is_unescaped(front);
        assert(unescaped(parts[parts.len() - 1]));
    }
}

/// The plain drawing holds no escape.
pub proof fn plain_drawing_has_no_escapes(tree: TreeView)
    requires
        tree.heads.dom().finite(),
        unescaped_tree(tree),
    ensures
        unescaped(drawing(tree, Colour::Plain)),
{
    let rows = rows_of(tree.heads);
    let lines = lines_of(Colour::Plain, rows);
    lemma_rows_are_unescaped(tree);
    lemma_header_is_unescaped(tree);
    assert forall|i: int| 0 <= i < lines.len() implies unescaped(#[trigger] lines[i]) by {
        assert(unescaped_row(rows[i]));
    }
    lemma_concat_is_unescaped(lines);
}

} // verus!

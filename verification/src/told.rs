//! What is said, and what is made of what was said: messages, exit codes, the answers
//! to hooks, and how texts are taken apart and put together.

use vstd::prelude::*;

use crate::cli::{self, StdinView};
use crate::error::{self, Edge, ErrorView};
use crate::grill::{self, LeaseView, Slot};
use crate::hook::{self, Event, PayloadView, ResponseView, SnapshotView};
use crate::json::{self, JsonView};
use crate::model::{RejectedView, Status, TreeView};
use crate::paths;
use crate::query;
use crate::render;
use crate::slug as slugs;
use crate::store::{self, Attempt, Found, LockStepView};
use crate::text::{self, Text};

verus! {

// ---------------------------------------------------------------------------
// Texts put together
// ---------------------------------------------------------------------------

/// Texts are glued one behind the other, and joined with what goes between them, which
/// stands nowhere else.
pub proof fn texts_are_put_one_behind_the_other(parts: Seq<Text>, last: Text, between: Text)
    ensures
        text::concat(Seq::<Text>::empty()) == Seq::<char>::empty(),
        text::concat(parts.push(last)) == text::concat(parts) + last,
        text::joined(Seq::<Text>::empty(), between) == Seq::<char>::empty(),
        text::joined(seq![last], between) == last,
        parts.len() > 0 ==> text::joined(parts.push(last), between) == text::joined(parts, between)
            + between + last,
{
    assert(parts.push(last).drop_last() =~= parts);
}

pub open spec fn value_of(digits: Text) -> int
    decreases digits.len(),
{
    if digits.len() == 0 {
        0
    } else {
        10 * value_of(digits.drop_last()) + (digits.last() as int - '0' as int)
    }
}

/// A number in decimal notation is made of digits, is worth the number, and has no zero
/// in front.
pub proof fn decimal_is_worth_its_number(n: nat)
    ensures
        value_of(text::decimal(n)) == n,
        text::decimal(n).len() > 0,
        forall|i: int| 0 <= i < text::decimal(n).len() ==> '0' <= #[trigger] text::decimal(n)[i] <= '9',
        n > 0 ==> text::decimal(n)[0] != '0',
        n == 0 ==> text::decimal(n).len() == 1,
    decreases n,
{
    let all = text::decimal(n);
    if n < 10 {
        assert(all.drop_last() =~= Seq::<char>::empty());
        assert(value_of(all.drop_last()) == 0);
    } else {
        let front = text::decimal(n / 10);
        decimal_is_worth_its_number(n / 10);
        assert(all.drop_last() =~= front);
        assert(all.last() == text::digit(n % 10));
        assert forall|i: int| 0 <= i < all.len() implies '0' <= #[trigger] all[i] <= '9' by {
            if i < front.len() {
                assert(all[i] == front[i]);
            }
        }
        assert(all[0] == front[0]);
    }
}

/// Blanks are blanks, as many as were asked for.
pub proof fn spaces_are_blank(n: nat, i: int)
    requires
        0 <= i < n,
    ensures
        text::spaces(n).len() == n,
        text::spaces(n)[i] == ' ',
{
}

/// A text comes before another where, at the first place at which they part, it has the
/// lower character or has ended.
pub proof fn order_is_decided_where_texts_part(a: Text, b: Text, n: int)
    requires
        0 <= n <= a.len(),
        n <= b.len(),
        forall|i: int| 0 <= i < n ==> #[trigger] a[i] == b[i],
        n < a.len() && n < b.len() ==> a[n] != b[n],
    ensures
        text::before(a, b) <==> n < b.len() && (n == a.len() || a[n] < b[n]),
        n < a.len() || n < b.len() || !text::before(a, b),
    decreases n,
{
    if n > 0 {
        assert(a[0] == b[0]);
        let x = a.skip(1);
        let y = b.skip(1);
        assert forall|i: int| 0 <= i < n - 1 implies #[trigger] x[i] == y[i] by {
            assert(a[i + 1] == b[i + 1]);
        }
        order_is_decided_where_texts_part(x, y, n - 1);
    }
}

/// To trim a text takes white space off its ends, all of it and nothing else.
pub proof fn trimming_takes_white_space_off_the_ends(t: Text)
    ensures
        exists|from: int, to: int|
            #![trigger t.subrange(from, to)]
            {
                &&& 0 <= from <= to <= t.len()
                &&& text::trimmed(t) == t.subrange(from, to)
                &&& forall|i: int| 0 <= i < from ==> text::is_white_space(#[trigger] t[i])
                &&& forall|i: int| to <= i < t.len() ==> text::is_white_space(#[trigger] t[i])
                &&& from < to ==> !text::is_white_space(t[from]) && !text::is_white_space(
                    t[to - 1],
                )
            },
{
    let from = lemma_trimmed_start(t);
    let rest = text::trimmed_start(t);
    let len = lemma_trimmed_end(rest);
    let to = from + len;
    assert(rest.take(len) =~= t.subrange(from, to));
    assert forall|i: int| to <= i < t.len() implies text::is_white_space(#[trigger] t[i]) by {
        assert(t[i] == rest[i - from]);
    }
    if from < to {
        assert(t[to - 1] == rest[len - 1]);
        assert(t[from] == rest[0]);
    }
}

/// To trim the end of a text takes the white space off there, all of it and nothing
/// else.
pub proof fn trimming_the_end_keeps_the_front(t: Text)
    ensures
        exists|to: int|
            #![trigger t.take(to)]
            {
                &&& 0 <= to <= t.len()
                &&& text::trimmed_end(t) == t.take(to)
                &&& forall|i: int| to <= i < t.len() ==> text::is_white_space(#[trigger] t[i])
                &&& to > 0 ==> !text::is_white_space(t[to - 1])
            },
{
    let to = lemma_trimmed_end(t);
}

proof fn lemma_trimmed_start(t: Text) -> (from: int)
    ensures
        0 <= from <= t.len(),
        text::trimmed_start(t) == t.skip(from),
        forall|i: int| 0 <= i < from ==> text::is_white_space(#[trigger] t[i]),
        from < t.len() ==> !text::is_white_space(t[from]),
    decreases t.len(),
{
    if t.len() > 0 && text::is_white_space(t[0]) {
        let rest = t.skip(1);
        let n = lemma_trimmed_start(rest);
        assert(rest.skip(n) =~= t.skip(n + 1));
        assert forall|i: int| 0 <= i < n + 1 implies text::is_white_space(#[trigger] t[i]) by {
            if i > 0 {
                assert(t[i] == rest[i - 1]);
            }
        }
        n + 1
    } else {
        assert(t.skip(0) =~= t);
        0
    }
}

proof fn lemma_trimmed_end(t: Text) -> (to: int)
    ensures
        0 <= to <= t.len(),
        text::trimmed_end(t) == t.take(to),
        forall|i: int| to <= i < t.len() ==> text::is_white_space(#[trigger] t[i]),
        to > 0 ==> !text::is_white_space(t[to - 1]),
    decreases t.len(),
{
    if t.len() > 0 && text::is_white_space(t.last()) {
        let rest = t.drop_last();
        let n = lemma_trimmed_end(rest);
        assert(rest.take(n) =~= t.take(n));
        assert forall|i: int| n <= i < t.len() implies text::is_white_space(#[trigger] t[i]) by {
            if i < rest.len() {
                assert(t[i] == rest[i]);
            }
        }
        n
    } else {
        assert(t.take(t.len() as int) =~= t);
        t.len() as int
    }
}

// ---------------------------------------------------------------------------
// Slugs
// ---------------------------------------------------------------------------

pub open spec fn is_word(t: Text) -> bool {
    forall|i: int| 0 <= i < t.len() ==> slugs::is_alphanumeric(#[trigger] t[i])
}

pub open spec fn is_gap(t: Text) -> bool {
    forall|i: int| 0 <= i < t.len() ==> !slugs::is_alphanumeric(#[trigger] t[i])
}

/// Letters and digits are those of ASCII, of either case, and small letters are made of
/// the capital ones.
pub proof fn slug_letters_are_small(c: char)
    ensures
        slugs::is_alphanumeric(c) <==> ('a' <= c <= 'z' || 'A' <= c <= 'Z' || '0' <= c <= '9'),
        'A' <= c <= 'Z' ==> slugs::lower(c) as int == c as int + 32,
        !('A' <= c <= 'Z') ==> slugs::lower(c) == c,
{
    if 'A' <= c <= 'Z' {
        let b = c as u8;
        assert(65 <= b <= 90);
    }
}

/// A text without a letter or digit leaves nothing of a slug, and one word is its own
/// letters made small.
pub proof fn slug_of_a_word(t: Text)
    ensures
        is_gap(t) ==> slugs::slug_of(t).len() == 0,
        is_word(t) ==> slugs::slug_of(t) == t.map_values(|c: char| slugs::lower(c)),
{
    let low = |c: char| slugs::lower(c);
    if is_gap(t) {
        lemma_dashed_gap(t);
        let d = slugs::dashed(t);
        if d.len() > 0 {
            assert(d[0] == '-');
            assert(d.skip(1) =~= Seq::<char>::empty());
            assert(slugs::without_leading_dashes(d.skip(1)).len() == 0);
        }
    }
    if is_word(t) {
        lemma_dashed_word(t);
        let d = t.map_values(low);
        assert(slugs::dashed(t) == d);
        if d.len() > 0 {
            lemma_lower_is_no_dash(t[0]);
            lemma_lower_is_no_dash(t[t.len() - 1]);
            assert(d[0] == slugs::lower(t[0]));
            assert(d.last() == slugs::lower(t[t.len() - 1]));
        }
        assert(slugs::slug_of(t) =~= d);
    }
}

/// Words with something between them become the slugs of the words with a single dash
/// between them, and what stands before the first or behind the last is dropped.
pub proof fn slug_of_words(a: Text, gap: Text, b: Text)
    requires
        is_gap(gap),
        is_word(b),
    ensures
        gap.len() > 0 && b.len() > 0 && slugs::slug_of(a).len() > 0 ==> slugs::slug_of(a + gap + b)
            == slugs::slug_of(a) + seq!['-'] + slugs::slug_of(b),
        slugs::slug_of(a).len() == 0 ==> slugs::slug_of(a + gap + b) == slugs::slug_of(b),
        b.len() == 0 ==> slugs::slug_of(a + gap + b) == slugs::slug_of(a),
        gap.len() == 0 && slugs::slug_of(a).len() > 0 && a.len() > 0 && slugs::is_alphanumeric(
            a.last(),
        ) ==> slugs::slug_of(a + gap + b) == slugs::slug_of(a) + slugs::slug_of(b),
{
    let low = |c: char| slugs::lower(c);
    let da = slugs::dashed(a);
    let word = b.map_values(low);
    lemma_dashed_shape(a);
    lemma_dashed_then_gap(a, gap);
    lemma_dashed_then_word(a + gap, b);
    slug_of_a_word(b);
    let mid = slugs::dashed(a + gap);
    let all = slugs::dashed(a + gap + b);
    assert(all == mid + word);
    lemma_trim_dashes(da);
    lemma_trim_dashes(mid);
    lemma_trim_dashes(all);
    let core_a = slugs::slug_of(a);
    let lead: int = if da.len() > 0 && da[0] == '-' {
        1
    } else {
        0
    };
    if b.len() > 0 {
        lemma_lower_is_no_dash(b[0]);
        lemma_lower_is_no_dash(b[b.len() - 1]);
        assert(word[0] == slugs::lower(b[0]));
        assert(word.last() == slugs::lower(b[b.len() - 1]));
        assert(all.last() == word.last());
    } else {
        assert(all =~= mid);
    }
    if gap.len() > 0 {
        if da.len() > 0 && da.last() == '-' {
            assert(mid == da);
        } else {
            assert(mid == da.push('-'));
        }
    } else {
        assert(a + gap =~= a);
        assert(mid == da);
    }
    if core_a.len() == 0 {
        if b.len() > 0 {
            if mid.len() > 0 {
                assert(mid.len() == 1 && mid[0] == '-');
                assert(all.subrange(1, all.len() as int) =~= word);
            } else {
                assert(all =~= word);
            }
        } else if mid.len() > 0 {
            assert(slugs::slug_of(a + gap + b) =~= Seq::<char>::empty());
        }
    } else {
        if b.len() > 0 && gap.len() > 0 {
            assert(slugs::slug_of(a + gap + b) =~= core_a + seq!['-'] + word);
        }
        if b.len() == 0 {
            assert(slugs::slug_of(a + gap + b) =~= core_a);
        }
        if gap.len() == 0 && a.len() > 0 && slugs::is_alphanumeric(a.last()) {
            lemma_lower_is_no_dash(a.last());
            assert(da.last() == slugs::lower(a.last()));
            assert(slugs::slug_of(a + gap + b) =~= core_a + word);
        }
    }
}

proof fn lemma_lower_is_no_dash(c: char)
    requires
        slugs::is_alphanumeric(c),
    ensures
        slugs::lower(c) != '-',
{
    slug_letters_are_small(c);
}

proof fn lemma_dashed_gap(t: Text)
    requires
        is_gap(t),
    ensures
        slugs::dashed(t) == (if t.len() == 0 {
            Seq::<char>::empty()
        } else {
            seq!['-']
        }),
    decreases t.len(),
{
    if t.len() > 0 {
        let front = t.drop_last();
        assert forall|i: int| 0 <= i < front.len() implies !slugs::is_alphanumeric(
            #[trigger] front[i],
        ) by {
            assert(front[i] == t[i]);
        }
        lemma_dashed_gap(front);
        assert(!slugs::is_alphanumeric(t[t.len() - 1]));
        assert(Seq::<char>::empty().push('-') =~= seq!['-']);
    }
}

proof fn lemma_dashed_word(t: Text)
    requires
        is_word(t),
    ensures
        slugs::dashed(t) == t.map_values(|c: char| slugs::lower(c)),
    decreases t.len(),
{
    let low = |c: char| slugs::lower(c);
    if t.len() > 0 {
        let front = t.drop_last();
        assert forall|i: int| 0 <= i < front.len() implies slugs::is_alphanumeric(
            #[trigger] front[i],
        ) by {
            assert(front[i] == t[i]);
        }
        lemma_dashed_word(front);
        assert(slugs::is_alphanumeric(t[t.len() - 1]));
        assert(front.map_values(low).push(slugs::lower(t.last())) =~= t.map_values(low));
    } else {
        assert(t.map_values(low) =~= t);
    }
}

/// No two dashes stand next to each other.
proof fn lemma_dashed_shape(t: Text)
    ensures
        forall|i: int|
            0 <= i < slugs::dashed(t).len() - 1 && #[trigger] slugs::dashed(t)[i] == '-'
                ==> slugs::dashed(t)[i + 1] != '-',
    decreases t.len(),
{
    if t.len() > 0 {
        let front = slugs::dashed(t.drop_last());
        let all = slugs::dashed(t);
        lemma_dashed_shape(t.drop_last());
        if slugs::is_alphanumeric(t.last()) {
            lemma_lower_is_no_dash(t.last());
        }
        assert forall|i: int| 0 <= i < all.len() - 1 && #[trigger] all[i] == '-' implies all[i + 1]
            != '-' by {
            assert(all[i] == front[i]);
            if i + 1 < front.len() {
                assert(all[i + 1] == front[i + 1]);
            }
        }
    }
}

proof fn lemma_dashed_then_gap(a: Text, gap: Text)
    requires
        is_gap(gap),
    ensures
        slugs::dashed(a + gap) == (if gap.len() == 0 || (slugs::dashed(a).len() > 0
            && slugs::dashed(a).last() == '-') {
            slugs::dashed(a)
        } else {
            slugs::dashed(a).push('-')
        }),
    decreases gap.len(),
{
    if gap.len() == 0 {
        assert(a + gap =~= a);
    } else {
        let front = gap.drop_last();
        assert forall|i: int| 0 <= i < front.len() implies !slugs::is_alphanumeric(
            #[trigger] front[i],
        ) by {
            assert(front[i] == gap[i]);
        }
        lemma_dashed_then_gap(a, front);
        assert((a + gap).drop_last() =~= a + front);
        assert((a + gap).last() == gap[gap.len() - 1]);
        assert(!slugs::is_alphanumeric(gap[gap.len() - 1]));
    }
}

proof fn lemma_dashed_then_word(a: Text, b: Text)
    requires
        is_word(b),
    ensures
        slugs::dashed(a + b) == slugs::dashed(a) + b.map_values(|c: char| slugs::lower(c)),
    decreases b.len(),
{
    let low = |c: char| slugs::lower(c);
    if b.len() == 0 {
        assert(a + b =~= a);
        assert(slugs::dashed(a) + b.map_values(low) =~= slugs::dashed(a));
    } else {
        let front = b.drop_last();
        assert forall|i: int| 0 <= i < front.len() implies slugs::is_alphanumeric(
            #[trigger] front[i],
        ) by {
            assert(front[i] == b[i]);
        }
        lemma_dashed_then_word(a, front);
        assert((a + b).drop_last() =~= a + front);
        assert((a + b).last() == b[b.len() - 1]);
        assert(slugs::is_alphanumeric(b[b.len() - 1]));
        assert((slugs::dashed(a) + front.map_values(low)).push(slugs::lower(b.last()))
            =~= slugs::dashed(a) + b.map_values(low));
    }
}

/// At most one dash is taken off either end.
proof fn lemma_trim_dashes(d: Text)
    requires
        forall|i: int| 0 <= i < d.len() - 1 && #[trigger] d[i] == '-' ==> d[i + 1] != '-',
    ensures
        ({
            let from: int = if d.len() > 0 && d[0] == '-' {
                1
            } else {
                0
            };
            let to: int = if d.len() > from && d.last() == '-' {
                d.len() - 1
            } else {
                d.len() as int
            };
            slugs::without_trailing_dashes(slugs::without_leading_dashes(d)) == d.subrange(from, to)
        }),
{
    let from: int = if d.len() > 0 && d[0] == '-' {
        1
    } else {
        0
    };
    let rest = d.skip(from);
    if from == 1 {
        if d.len() > 1 {
            assert(d[0int + 1] != '-');
            assert(d.skip(1)[0] == d[1]);
        }
        assert(slugs::without_leading_dashes(d.skip(1)) == d.skip(1));
    } else {
        assert(d.skip(0) =~= d);
    }
    assert(slugs::without_leading_dashes(d) == rest);
    if rest.len() > 0 && rest.last() == '-' {
        let short = rest.drop_last();
        if short.len() > 0 {
            assert(short.last() == d[d.len() - 2]);
            if d[d.len() - 2] == '-' {
                assert(d[d.len() - 2 + 1] != '-');
            }
        }
        assert(slugs::without_trailing_dashes(short) == short);
        assert(short =~= d.subrange(from, d.len() - 1));
    } else {
        assert(rest =~= d.subrange(from, d.len() as int));
    }
}

// ---------------------------------------------------------------------------
// Failures
// ---------------------------------------------------------------------------

/// What every failure is reported as.
pub proof fn failures_say_what_went_wrong(e: ErrorView)
    ensures
        error::message_of(e) == (match e {
            ErrorView::Io { path, source } => path + ": "@ + source,
            ErrorView::Json { path, source } => path + ": malformed JSON: "@ + source,
            ErrorView::NoStore { start } => "no .hydra directory in "@ + start + " or any parent"@,
            ErrorView::HeadUnset => "no active tree: .hydra/HEAD is missing"@,
            ErrorView::UnknownTree { slug } => "unknown tree '"@ + slug + "'"@,
            ErrorView::TreeExists { slug } => "tree '"@ + slug + "' already exists"@,
            ErrorView::UnsupportedVersion { path, found, expected } => path
                + ": tree format version "@ + text::decimal(found as nat) + ", expected "@
                + text::decimal(expected as nat),
            ErrorView::MalformedSlug { slug } => "malformed slug '"@ + slug
                + "': expected ^[a-z0-9][a-z0-9-]*$"@,
            ErrorView::DuplicateSlug { slug } => "duplicate slug '"@ + slug + "'"@,
            ErrorView::LockTimeout { path } => "timed out waiting for the lock on "@ + path,
            ErrorView::UnknownHead { slug } => "unknown head '"@ + slug + "'"@,
            ErrorView::UnknownParent { slug, parent } => "'"@ + slug + "' cannot go under '"@
                + parent + "': no such head"@,
            ErrorView::UnknownBlocker { slug, blocked_by } => "'"@ + slug
                + "' cannot be blocked by '"@ + blocked_by + "': no such head"@,
            ErrorView::BlockCycle { slug, blocked_by, path } => "blocking '"@ + slug + "' by '"@
                + blocked_by + "' would close a cycle: "@ + text::joined(path, " -> "@),
            ErrorView::ParentCycle { slug, parent, path } => "moving '"@ + slug + "' under '"@
                + parent + "' would make it its own ancestor: "@ + text::joined(path, " -> "@),
            ErrorView::ReopenCycle { slug, edge, other, path } => "the "@ + (match edge {
                Edge::Parent => "parent"@,
                Edge::BlockedBy => "blocked_by"@,
            }) + " edge from '"@ + slug + "' to '"@ + other
                + "' would close a cycle in the cascade: "@ + text::joined(path, " -> "@),
            ErrorView::BlockedCut { slug, blockers } => "'"@ + slug
                + "' is held back by unanswered heads: "@ + text::joined(blockers, ", "@),
            ErrorView::IllegalTransition { slug, from, to } => "'"@ + slug + "' cannot go from "@ + (
            match from {
                Status::Open => "open"@,
                Status::Answered => "answered"@,
            }) + " to "@ + (match to {
                Status::Open => "open"@,
                Status::Answered => "answered"@,
            }),
            ErrorView::CauteriseByUnanswered { slug, by } => "'"@ + slug
                + "' cannot be cauterised by '"@ + by + "', which is not answered"@,
            ErrorView::SelfCauterise { slug } => "'"@ + slug + "' cannot be cauterised by itself"@,
        }),
{
    let parts = error::parts_of(e);
    lemma_concat_few(parts);
}

proof fn lemma_concat_few(p: Seq<Text>)
    ensures
        p.len() == 1 ==> text::concat(p) == p[0],
        p.len() == 2 ==> text::concat(p) == p[0] + p[1],
        p.len() == 3 ==> text::concat(p) == p[0] + p[1] + p[2],
        p.len() == 4 ==> text::concat(p) == p[0] + p[1] + p[2] + p[3],
        p.len() == 5 ==> text::concat(p) == p[0] + p[1] + p[2] + p[3] + p[4],
        p.len() == 6 ==> text::concat(p) == p[0] + p[1] + p[2] + p[3] + p[4] + p[5],
        p.len() == 7 ==> text::concat(p) == p[0] + p[1] + p[2] + p[3] + p[4] + p[5] + p[6],
        p.len() == 8 ==> text::concat(p) == p[0] + p[1] + p[2] + p[3] + p[4] + p[5] + p[6] + p[7],
    decreases p.len(),
{
    if 0 < p.len() <= 8 {
        let q = p.drop_last();
        lemma_concat_few(q);
        if p.len() == 1 {
            assert(text::concat(q) =~= Seq::<char>::empty());
            assert(Seq::<char>::empty() + p[0] =~= p[0]);
        }
    }
}

/// The exit codes: 0 for success, 1 where reading, writing or locking failed, 2 for a
/// mistake on the command line, 3 for a refusal, 4 where heads are open, and 5 where
/// there is no tree to act on.
pub proof fn exit_codes_tell_failures_apart(e: ErrorView)
    ensures
        error::OK == 0,
        error::FAILED == 1,
        error::USAGE == 2,
        error::REJECTED == 3,
        error::OPEN == 4,
        error::NO_TREE == 5,
        error::code_of(e) == 1 <==> e is Io || e is Json || e is LockTimeout,
        error::code_of(e) == 5 <==> e is NoStore || e is HeadUnset || e is UnknownTree
            || e is TreeExists || e is UnsupportedVersion,
        error::code_of(e) == 3 <==> e is MalformedSlug || e is DuplicateSlug || e is UnknownHead
            || e is UnknownParent || e is UnknownBlocker || e is BlockCycle || e is ParentCycle
            || e is ReopenCycle || e is BlockedCut || e is IllegalTransition
            || e is CauteriseByUnanswered || e is SelfCauterise,
{
}

// ---------------------------------------------------------------------------
// The command line
// ---------------------------------------------------------------------------

/// The standard input goes to the one field that asks for it; where none does it is
/// not read, and where several do the user is told which, in order.
pub proof fn stdin_goes_to_the_field_that_asks(fields: Seq<(Text, Text)>, i: int, j: int)
    ensures
        ({
            let plan = cli::stdin_plan(fields);
            let asks = |k: int| 0 <= k < fields.len() && fields[k].1 == "-"@;
            &&& plan is Unused ==> !asks(i)
            &&& plan matches StdinView::Fills(at) ==> asks(at as int) && (asks(i) ==> i == at)
            &&& asks(i) && !(plan is Contested) ==> plan == StdinView::Fills(i as nat)
            &&& asks(i) && asks(j) && i != j ==> plan is Contested
            &&& (forall|k: int| 0 <= k < fields.len() ==> (#[trigger] fields[k]).1 != "-"@)
                ==> plan is Unused
            &&& plan matches StdinView::Contested(message) ==> exists|flags: Seq<Text>|
                {
                    &&& message == "only one field can read stdin, and "@ + #[trigger] text::joined(
                        flags,
                        " and "@,
                    ) + " both ask for -"@
                    &&& flags == flags_asking(fields)
                }
        }),
{
    let n = fields.len();
    let places = cli::asking(fields, n);
    lemma_asking(fields, n);
    lemma_flags_asking(fields, n);
    if 0 <= i < n && fields[i].1 == "-"@ {
        assert(places.contains(i as nat));
        let k = choose|k: int| 0 <= k < places.len() && places[k] == i as nat;
        if 0 <= j < n && fields[j].1 == "-"@ && i != j {
            assert(places.contains(j as nat));
            let m = choose|m: int| 0 <= m < places.len() && places[m] == j as nat;
            assert(k != m);
        }
    }
    if places.len() > 0 {
        assert(places.contains(places[0]));
    }
    if places.len() > 1 {
        let flags = places.map_values(|at: nat| fields[at as int].0);
        assert(fields.take(n as int) =~= fields);
        lemma_concat_few(
            seq![
                "only one field can read stdin, and "@,
                text::joined(flags, " and "@),
                " both ask for -"@,
            ],
        );
    }
}

/// The flags of the fields that ask for the standard input, in order.
pub open spec fn flags_asking(fields: Seq<(Text, Text)>) -> Seq<Text> {
    fields.filter(|f: (Text, Text)| f.1 == "-"@).map_values(|f: (Text, Text)| f.0)
}

proof fn lemma_asking(fields: Seq<(Text, Text)>, n: nat)
    requires
        n <= fields.len(),
    ensures
        forall|at: nat| #[trigger]
            cli::asking(fields, n).contains(at) <==> at < n && fields[at as int].1 == "-"@,
    decreases n,
{
    if n > 0 {
        let m = (n - 1) as nat;
        let before = cli::asking(fields, m);
        let all = cli::asking(fields, n);
        lemma_asking(fields, m);
        assert forall|at: nat| #[trigger] all.contains(at) <==> at < n && fields[at as int].1
            == "-"@ by {
            assert(before.contains(at) <==> at < m && fields[at as int].1 == "-"@);
            if all.contains(at) {
                let k = choose|k: int| 0 <= k < all.len() && all[k] == at;
                if k < before.len() {
                    assert(before[k] == at);
                }
            }
            if before.contains(at) {
                let k = choose|k: int| 0 <= k < before.len() && before[k] == at;
                assert(all[k] == at);
            }
            if at == m && fields[m as int].1 == "-"@ {
                assert(all[before.len() as int] == at);
            }
        }
    }
}

proof fn lemma_flags_asking(fields: Seq<(Text, Text)>, n: nat)
    requires
        n <= fields.len(),
    ensures
        cli::asking(fields, n).map_values(|at: nat| fields[at as int].0) == flags_asking(
            fields.take(n as int),
        ),
    decreases n,
{
    reveal(Seq::filter);
    let p = |f: (Text, Text)| f.1 == "-"@;
    let flag = |f: (Text, Text)| f.0;
    let name = |at: nat| fields[at as int].0;
    if n == 0 {
        assert(fields.take(0).filter(p) =~= Seq::<(Text, Text)>::empty());
        assert(cli::asking(fields, 0).map_values(name) =~= flags_asking(fields.take(0)));
    } else {
        let m = (n - 1) as nat;
        let before = cli::asking(fields, m);
        lemma_flags_asking(fields, m);
        let all = fields.take(n as int);
        assert(all.drop_last() =~= fields.take(m as int));
        assert(all.last() == fields[m as int]);
        if fields[m as int].1 == "-"@ {
            assert(before.push(m).map_values(name) =~= before.map_values(name).push(
                fields[m as int].0,
            ));
            let kept = fields.take(m as int).filter(p);
            assert(kept.push(fields[m as int]).map_values(flag) =~= kept.map_values(flag).push(
                fields[m as int].0,
            ));
        }
    }
}

/// A rejected option stands before the first colon and its reason behind it, both
/// without the white space round them. Where there is no colon, or one of the two is
/// blank, the user is told which.
pub proof fn rejections_are_split_at_the_first_colon(raw: Text, n: int)
    requires
        0 <= n <= raw.len(),
        forall|i: int| 0 <= i < n ==> #[trigger] raw[i] != ':',
        n < raw.len() ==> raw[n] == ':',
    ensures
        ({
            let option = text::trimmed(raw.take(n));
            let why = text::trimmed(raw.skip(n + 1));
            let complaint = |what: Text|
                "expected \"<option>: <why>\", got "@ + cli::escaped(raw) + ": "@ + what;
            cli::rejection_of(raw) == (if n == raw.len() {
                Err::<RejectedView, Text>(complaint("no ':' to split on"@))
            } else if option.len() == 0 {
                Err(complaint("the option is empty"@))
            } else if why.len() == 0 {
                Err(complaint("the reason is empty"@))
            } else {
                Ok(RejectedView { option, why_not: why })
            })
        }),
{
    lemma_split(raw, n);
    let whys = seq!["no ':' to split on"@, "the option is empty"@, "the reason is empty"@];
    assert forall|i: int| 0 <= i < 3 implies cli::malformed(raw, #[trigger] whys[i])
        == "expected \"<option>: <why>\", got "@ + cli::escaped(raw) + ": "@ + whys[i] by {
        lemma_concat_few(
            seq!["expected \"<option>: <why>\", got "@, cli::escaped(raw), ": "@, whys[i]],
        );
    }
    assert(whys[0] == "no ':' to split on"@);
    assert(whys[1] == "the option is empty"@);
    assert(whys[2] == "the reason is empty"@);
}

proof fn lemma_split(t: Text, n: int)
    requires
        0 <= n <= t.len(),
        forall|i: int| 0 <= i < n ==> #[trigger] t[i] != ':',
        n < t.len() ==> t[n] == ':',
    ensures
        cli::split_at_colon(t) == (if n < t.len() {
            Some((t.take(n), t.skip(n + 1)))
        } else {
            None
        }),
    decreases t.len(),
{
    if t.len() > 0 {
        if n == 0 {
            assert(t.take(0) =~= Seq::<char>::empty());
        } else {
            assert(t[0] != ':');
            let rest = t.skip(1);
            assert forall|i: int| 0 <= i < n - 1 implies #[trigger] rest[i] != ':' by {
                assert(t[i + 1] != ':');
            }
            lemma_split(rest, n - 1);
            if n < t.len() {
                assert(seq![t[0]] + rest.take(n - 1) =~= t.take(n));
                assert(rest.skip(n) =~= t.skip(n + 1));
            }
        }
    }
}

/// A tree that is given no slug gets that of its directory or, where nothing is left of
/// its name, a fixed one. A question of several lines is filed under its first line,
/// and an empty parent is none.
pub proof fn what_is_not_given_is_made_up(name: Text, slug: Text, question: Text, parent: Text)
    ensures
        cli::default_slug_of(None) == "hydra"@,
        slugs::slug_of(name).len() == 0 ==> cli::default_slug_of(Some(name)) == "hydra"@,
        slugs::slug_of(name).len() > 0 ==> cli::default_slug_of(Some(name)) == slugs::slug_of(name),
        cli::narrowed(Some(slug), question) == Some(slug),
        query::first_line_of(question) == question ==> cli::narrowed(None, question) is None,
        query::first_line_of(question) != question ==> cli::narrowed(None, question) == Some(
            slugs::slug_of(query::first_line_of(question)),
        ),
        parent.len() == 0 ==> cli::parent_named(parent) is None,
        parent.len() > 0 ==> cli::parent_named(parent) == Some(parent),
{
}

// ---------------------------------------------------------------------------
// The store
// ---------------------------------------------------------------------------

/// The names of the files of a store, how long a lock is waited for, in milliseconds,
/// the version of the trees that are written, and the seconds that a time can name.
pub proof fn files_have_their_names(slug: Text)
    ensures
        store::DIR@ == ".hydra"@,
        store::HEAD@ == "HEAD"@,
        store::GRILL@ == "grill"@,
        store::tree_file(slug) == slug + ".json"@,
        store::lock_file(slug) == slug + ".lock"@,
        store::head_contents(slug) == slug + "\n"@,
        store::LOCK_TIMEOUT == 5000,
        store::LOCK_POLL == 20,
        crate::model::VERSION == 1,
        crate::model::FIRST_SECOND == -377_705_023_201,
        crate::model::LAST_SECOND == 253_402_207_200,
{
}

/// The path of a name in a directory: the two with one slash between them, but that a
/// name from the root stands for itself.
pub proof fn names_are_put_behind_their_directory(dir: Text, name: Text)
    ensures
        name.len() > 0 && name[0] == '/' ==> paths::within(dir, name) == name,
        !(name.len() > 0 && name[0] == '/') && (dir.len() == 0 || dir.last() == '/')
            ==> paths::within(dir, name) == dir + name,
        !(name.len() > 0 && name[0] == '/') && dir.len() > 0 && dir.last() != '/'
            ==> paths::within(dir, name) == dir + seq!['/'] + name,
{
    reveal_strlit("/");
    assert("/"@ =~= seq!['/']);
}

/// The trees of a store are those whose files are in it: a slug that is well formed, and
/// a file of that name.
pub proof fn trees_are_those_that_have_a_file(names: Seq<Text>, slug: Text)
    ensures
        store::trees_among(names).contains(slug) <==> slugs::well_formed(slug) && names.contains(
            slug + ".json"@,
        ),
{
}

/// A path comes first among its ancestors, and behind each comes the directory that
/// holds it, until there is none. A slash, or a slash and a dot, at the end of a path
/// does not change which directory holds it.
pub proof fn ancestors_go_up_one_by_one(path: Text)
    ensures
        paths::ancestors_of(path).len() > 0,
        paths::ancestors_of(path)[0] == path,
        paths::parent_of(path) is None ==> paths::ancestors_of(path).len() == 1,
        paths::parent_of(path) matches Some(up) ==> paths::ancestors_of(path).skip(1)
            == paths::ancestors_of(up),
        path.len() > 0 ==> paths::parent_of(path + seq!['/']) == paths::parent_of(path),
        path.len() > 0 && path.last() != '/' ==> paths::parent_of(path + seq!['/', '.'])
            == paths::parent_of(path),
        paths::parent_of(seq!['/']) is None,
        paths::parent_of(Seq::<char>::empty()) is None,
        paths::parent_of(seq!['.']) == Some(Seq::<char>::empty()),
{
    if let Some(up) = paths::parent_of(path) {
        assert((seq![path] + paths::ancestors_of(up)).skip(1) =~= paths::ancestors_of(up));
    }
    let none = Seq::<char>::empty();
    assert(paths::trimmed(seq!['/']) == seq!['/']);
    assert(paths::trimmed(none) == none);
    assert(paths::trimmed(seq!['.']) == seq!['.']);
    if path.len() > 0 {
        let slash = path + seq!['/'];
        let end = slash.len() as int;
        assert(slash[0] == path[0]);
        assert(path.len() == 1 ==> slash[1] == '/');
        assert(path.len() > 1 ==> slash[1] == path[1]);
        assert(paths::body(slash) == paths::body(path));
        assert(slash[end - 1] == '/');
        assert(paths::name_from(slash, end) == end);
        assert(paths::last_name(slash) =~= none);
        assert(paths::shortened(slash) =~= path);
        if path.last() != '/' {
            let dot = path + seq!['/', '.'];
            let stop = dot.len() as int;
            assert(dot[0] == path[0]);
            assert(path.len() == 1 ==> dot[1] == '/');
            assert(path.len() > 1 ==> dot[1] == path[1]);
            assert(paths::body(dot) == paths::body(path));
            assert(dot[stop - 1] == '.' && dot[stop - 2] == '/');
            assert(paths::name_from(dot, stop - 1) == stop - 1);
            assert(paths::name_from(dot, stop) == stop - 1);
            assert(paths::last_name(dot) =~= seq!['.']);
            assert(paths::shortened(dot) =~= path);
        }
    }
}

/// The active tree is the one that its file names, without the white space round it.
/// Without the file there is none, and what is no slug is refused.
pub proof fn active_tree_is_the_one_named(raw: Text)
    ensures
        store::head_of(None) == Err::<Text, ErrorView>(ErrorView::HeadUnset),
        slugs::well_formed(text::trimmed(raw)) ==> store::head_of(Some(raw)) == Ok::<
            Text,
            ErrorView,
        >(text::trimmed(raw)),
        !slugs::well_formed(text::trimmed(raw)) ==> store::head_of(Some(raw)) == Err::<
            Text,
            ErrorView,
        >(ErrorView::MalformedSlug { slug: text::trimmed(raw) }),
{
}

/// A tree is loaded as it was found. What cannot be read or is no tree is a failure that
/// names the file and the reason, and a tree of another version is refused.
pub proof fn trees_load_as_they_were_found(dir: Text, slug: Text, found: Found)
    ensures
        !slugs::well_formed(slug) ==> store::loaded(dir, slug, found) == Err::<TreeView, ErrorView>(
            ErrorView::MalformedSlug { slug },
        ),
        slugs::well_formed(slug) ==> store::loaded(dir, slug, found) == (match found {
            Found::Missing => Err::<TreeView, ErrorView>(ErrorView::UnknownTree { slug }),
            Found::Unreadable(why) => Err(
                ErrorView::Io { path: paths::within(dir, slug + ".json"@), source: why@ },
            ),
            Found::Malformed(why) => Err(
                ErrorView::Json { path: paths::within(dir, slug + ".json"@), source: why@ },
            ),
            Found::Tree(tree) => if tree.version == 1 {
                Ok(tree@)
            } else {
                Err(
                    ErrorView::UnsupportedVersion {
                        path: paths::within(dir, slug + ".json"@),
                        found: tree.version,
                        expected: 1,
                    },
                )
            },
        }),
{
}

/// A tree is created under a well formed slug that none has yet, and saved only under
/// one that can name a file.
pub proof fn trees_need_a_slug_of_their_own(slug: Text, taken: bool, tree: TreeView)
    ensures
        store::creation_refusal(slug, taken) == (if !slugs::well_formed(slug) {
            Some(ErrorView::MalformedSlug { slug })
        } else if taken {
            Some(ErrorView::TreeExists { slug })
        } else {
            None
        }),
        slugs::well_formed(tree.slug) ==> store::save_refusal(tree) is None,
        !slugs::well_formed(tree.slug) ==> store::save_refusal(tree) == Some(
            ErrorView::MalformedSlug { slug: tree.slug },
        ),
{
}

/// A slug is one or more small letters, digits and dashes, and does not begin with a
/// dash.
pub proof fn slugs_are_small_letters_digits_and_dashes(slug: Text)
    ensures
        slugs::well_formed(slug) <==> slug.len() > 0 && slug[0] != '-' && forall|i: int|
            0 <= i < slug.len() ==> ('a' <= #[trigger] slug[i] <= 'z' || '0' <= slug[i] <= '9'
                || slug[i] == '-'),
{
    if slugs::well_formed(slug) {
        assert forall|i: int| 0 <= i < slug.len() implies ('a' <= #[trigger] slug[i] <= 'z' || '0'
            <= slug[i] <= '9' || slug[i] == '-') by {
            assert(slugs::is_lead(slug[i]) || slug[i] == '-');
        }
    }
}

/// A lock that is taken lets the change go on, one that is held elsewhere is tried again
/// until the time is up, and any other failure ends the wait.
pub proof fn locks_are_waited_for(waited: u64, timeout: u64, path: Text, why: String)
    ensures
        store::step_after(Attempt::Taken, waited, timeout, path) == LockStepView::Proceed,
        waited < timeout ==> store::step_after(Attempt::Busy, waited, timeout, path)
            == LockStepView::Retry,
        waited >= timeout ==> store::step_after(Attempt::Busy, waited, timeout, path)
            == LockStepView::GiveUp(ErrorView::LockTimeout { path }),
        store::step_after(Attempt::Failed(why), waited, timeout, path) == LockStepView::GiveUp(
            ErrorView::Io { path, source: why@ },
        ),
{
}

// ---------------------------------------------------------------------------
// The lease
// ---------------------------------------------------------------------------

/// A lease belongs to the session whose identifier it holds, and an empty identifier to
/// none. What is said of one that is displaced names its session and its tree.
pub proof fn leases_belong_to_their_session(
    lease: LeaseView,
    session_id: Text,
    given: Text,
    from_env: Option<Text>,
)
    ensures
        lease.held_by(session_id) <==> session_id.len() > 0 && lease.session_id == session_id,
        grill::displaced_by(None, session_id) is None,
        grill::displaced_by(Some(lease), session_id) == (if session_id.len() > 0
            && lease.session_id == session_id {
            None
        } else {
            Some(lease)
        }),
        grill::displacement_of(lease) == "replacing a lease left by session "@ + lease.session_id
            + " on '"@ + lease.tree + "'"@,
        grill::session_of(Some(given), from_env) == text::trimmed(given),
        grill::session_of(None, Some(given)) == text::trimmed(given),
        grill::session_of(None, None).len() == 0,
        grill::SESSION_ENV@ == "CLAUDE_CODE_SESSION_ID"@,
        grill::no_session() == "no session to grill: $"@ + grill::SESSION_ENV@
            + " is unset or empty, so pass --session-id"@,
        grill::held_in(Slot::Missing) is None,
        grill::held_in(Slot::Unreadable) is None,
        grill::held_in(Slot::Malformed) is None,
{
    lemma_concat_few(
        seq![
            "replacing a lease left by session "@,
            lease.session_id,
            " on '"@,
            lease.tree,
            "'"@,
        ],
    );
    lemma_concat_few(
        seq![
            "no session to grill: $"@,
            grill::SESSION_ENV@,
            " is unset or empty, so pass --session-id"@,
        ],
    );
}

// ---------------------------------------------------------------------------
// Hooks
// ---------------------------------------------------------------------------

/// The verbs of the events, and the names that they have in a payload.
pub proof fn events_have_their_names(verb: Text)
    ensures
        hook::event_of(verb) == Some(Event::SessionStart) <==> verb == "session-start"@,
        hook::event_of(verb) == Some(Event::PostToolUse) <==> verb == "post-tool-use"@,
        hook::event_of(verb) == Some(Event::Stop) <==> verb == "stop"@,
        hook::name_of(Event::SessionStart) == "SessionStart"@,
        hook::name_of(Event::PostToolUse) == "PostToolUse"@,
        hook::name_of(Event::Stop) == "Stop"@,
        hook::BASH@ == "Bash"@,
{
    reveal_strlit("session-start");
    reveal_strlit("post-tool-use");
    reveal_strlit("stop");
    assert("session-start"@[0] == 's' && "post-tool-use"@[0] == 'p' && "stop"@.len() == 4);
    assert("session-start"@.len() == 13);
}

/// What a payload holds: of an object the string or the flag under each key, and nothing
/// for a key that is not there or whose value is of another type. What is no object is
/// no payload.
pub proof fn payloads_hold_what_the_object_holds(value: JsonView)
    ensures
        !(value is Object) ==> hook::payload_of(value) is None,
        value is Object ==> (hook::payload_of(value) matches Some(payload) && {
            &&& payload.session_id == json::text_or_empty(value.at("session_id"@))
            &&& payload.hook_event_name == json::text_or_empty(value.at("hook_event_name"@))
            &&& payload.source == json::text_or_empty(value.at("source"@))
            &&& payload.tool_name == json::text_or_empty(value.at("tool_name"@))
            &&& payload.stop_hook_active == json::flag_or_false(value.at("stop_hook_active"@))
            &&& value.at("tool_input"@) is None ==> payload.command.len() == 0
            &&& value.at("tool_input"@) matches Some(input) ==> payload.command
                == json::text_or_empty(input.at("command"@))
        }),
{
}

/// The value under a key of an object is the first with that key; nothing else has keys.
/// A text or a flag is read only from a value of its type.
pub proof fn values_are_found_by_their_key(
    fields: Seq<(Text, JsonView)>,
    key: Text,
    n: int,
    value: JsonView,
)
    requires
        0 <= n <= fields.len(),
        forall|i: int| 0 <= i < n ==> (#[trigger] fields[i]).0 != key,
        n < fields.len() ==> fields[n].0 == key,
    ensures
        n < fields.len() ==> JsonView::Object(fields).at(key) == Some(fields[n].1),
        n == fields.len() ==> JsonView::Object(fields).at(key) is None,
        !(value is Object) ==> value.at(key) is None,
        json::text_or_empty(None).len() == 0,
        json::text_or_empty(Some(value)) == (match value {
            JsonView::Text(t) => t,
            _ => Seq::<char>::empty(),
        }),
        !json::flag_or_false(None),
        json::flag_or_false(Some(value)) <==> value == JsonView::Bool(true),
    decreases n,
{
    if n > 0 {
        assert(fields[0].0 != key);
        let rest = fields.skip(1);
        assert forall|i: int| 0 <= i < n - 1 implies (#[trigger] rest[i]).0 != key by {
            assert(rest[i] == fields[i + 1]);
        }
        values_are_found_by_their_key(rest, key, n - 1, value);
    }
}

/// A command runs this program where its name stands in it with no letter, digit,
/// underscore, dash or dot on either side.
pub proof fn commands_run_the_program_by_name(command: Text, at: int)
    requires
        0 <= at <= command.len() - 5,
        command.subrange(at, at + 5) == "hydra"@,
        at == 0 || !(hook::alphanumeric(command[at - 1]) || command[at - 1] == '_' || command[at - 1]
            == '-' || command[at - 1] == '.'),
        at + 5 == command.len() || !(hook::alphanumeric(command[at + 5]) || command[at + 5] == '_'
            || command[at + 5] == '-' || command[at + 5] == '.'),
    ensures
        hook::runs(command),
{
    reveal_strlit("hydra");
    assert(hook::stands_alone(command, "hydra"@, at));
}

/// A command that runs this program holds its name, with no letter, digit, underscore,
/// dash or dot on either side.
pub proof fn only_its_name_runs_the_program(command: Text)
    requires
        hook::runs(command),
    ensures
        exists|at: int|
            #![trigger command.subrange(at, at + 5)]
            {
                &&& 0 <= at <= command.len() - 5
                &&& command.subrange(at, at + 5) == "hydra"@
                &&& at == 0 || !(hook::alphanumeric(command[at - 1]) || command[at - 1] == '_'
                    || command[at - 1] == '-' || command[at - 1] == '.')
                &&& at + 5 == command.len() || !(hook::alphanumeric(command[at + 5]) || command[at
                    + 5] == '_' || command[at + 5] == '-' || command[at + 5] == '.')
            },
{
    reveal_strlit("hydra");
    let at = choose|at: int| hook::stands_alone(command, "hydra"@, at);
    assert(command.subrange(at, at + 5) == "hydra"@);
}

/// What is said when a session starts: nothing where no head is open, and otherwise a
/// line for the user that counts them and names the tree.
pub proof fn sessions_hear_of_open_heads(tree: TreeView)
    ensures
        query::counts_of(tree).open == 0 ==> hook::announcement(tree) == hook::silence(),
        query::counts_of(tree).open > 0 ==> {
            let said = hook::announcement(tree);
            let open = query::counts_of(tree).open;
            &&& said.decision is None
            &&& said.reason is None
            &&& said.hook_specific_output is None
            &&& said.system_message == Some(
                "hydra: "@ + text::decimal(open) + " open head"@ + (if open == 1 {
                    ""@
                } else {
                    "s"@
                }) + " on '"@ + tree.slug + "' — /hydra to resume"@,
            )
        },
        hook::silence().decision is None,
        hook::silence().reason is None,
        hook::silence().system_message is None,
        hook::silence().hook_specific_output is None,
{
    lemma_concat_few(hook::notice_parts(tree));
}

/// What is handed back to a session that lost its context: a line that says so, for the
/// model, and the payload.
pub proof fn sessions_get_their_interview_back(tree: TreeView, source: Text, resume: Text)
    ensures
        ({
            let said = hook::reloading(tree, source, resume);
            &&& said.decision is None
            &&& said.reason is None
            &&& said.system_message is None
            &&& said.hook_specific_output is Some
            &&& said.hook_specific_output->0.hook_event_name == "SessionStart"@
            &&& said.hook_specific_output->0.additional_context
                == "hydra: context was reset ("@ + source + ") during an interview on '"@
                + tree.slug
                + "'. Below is `hydra resume`: the skeleton of every head, and full detail for `next` and its ancestors. Carry on from `next`.\n\n"@
                + resume
        }),
{
    lemma_concat_few(hook::reload_parts(tree, source, resume));
}

/// When a session starts anew it hears of the active tree; when its context was cleared
/// or compacted it gets the leased tree back if the lease is its own; and otherwise
/// nothing is said.
pub proof fn session_starts_are_answered_by_their_source(s: SnapshotView, payload: PayloadView)
    ensures
        ({
            let said = hook::at_session_start(Some(s), payload);
            let fresh = payload.source == "startup"@ || payload.source == "resume"@;
            let lost = payload.source == "compact"@ || payload.source == "clear"@;
            let own = s.lease is Some && payload.session_id.len() > 0 && s.lease->0.session_id
                == payload.session_id;
            &&& fresh && s.head_tree is Some ==> said == hook::announcement(s.head_tree->0)
            &&& fresh && s.head_tree is None ==> said == hook::silence()
            &&& lost && own && s.leased_tree is Some && s.resume is Some ==> said
                == hook::reloading(s.leased_tree->0, payload.source, s.resume->0)
            &&& lost && !(own && s.leased_tree is Some && s.resume is Some) ==> said
                == hook::silence()
            &&& !fresh && !lost ==> said == hook::silence()
        }),
{
    reveal_strlit("startup");
    reveal_strlit("resume");
    reveal_strlit("compact");
    reveal_strlit("clear");
    assert("startup"@.len() == 7 && "resume"@.len() == 6 && "clear"@.len() == 5);
    assert("startup"@[0] == 's' && "compact"@[0] == 'c');
}

/// A stop is refused exactly to the session that holds the lease, on the active tree,
/// where there is a head to ask, and not a second time in a row. The refusal counts what
/// is open, names the tree and hands over the head.
pub proof fn stops_are_refused_while_there_is_something_to_ask(s: SnapshotView, payload: PayloadView)
    ensures
        ({
            let said = hook::at_stop(Some(s), payload);
            let refused = {
                &&& !payload.stop_hook_active
                &&& s.lease is Some
                &&& payload.session_id.len() > 0
                &&& s.lease->0.session_id == payload.session_id
                &&& s.head == Some(s.lease->0.tree)
                &&& s.leased_tree is Some
                &&& query::next_of(s.leased_tree->0.heads) is Some
                &&& s.next is Some
            };
            let open = query::counts_of(s.leased_tree->0).open;
            &&& !refused ==> said == hook::silence()
            &&& refused ==> {
                &&& said.decision == Some("block"@)
                &&& said.system_message is None
                &&& said.hook_specific_output is None
                &&& said.reason == Some(
                    "hydra: "@ + text::decimal(open) + " open head"@ + (if open == 1 {
                        ""@
                    } else {
                        "s"@
                    }) + " on '"@ + s.leased_tree->0.slug
                        + "' — the interview is not finished. Ask the head below rather than summarising or wrapping up. `hydra grill stop` ends the interview.\n\n"@
                        + s.next->0,
                )
            }
        }),
{
    if s.leased_tree is Some && s.next is Some {
        lemma_concat_few(hook::block_parts(s.leased_tree->0, s.next->0));
    }
}

/// After a shell command that runs this program the user is shown the active tree, and
/// nothing is said after any other.
pub proof fn commands_are_followed_by_the_drawing(s: SnapshotView, payload: PayloadView)
    ensures
        ({
            let said = hook::after_tool_use(Some(s), payload);
            let drawn = payload.tool_name == "Bash"@ && hook::runs(payload.command)
                && s.head_tree is Some;
            &&& !drawn ==> said == hook::silence()
            &&& drawn ==> {
                &&& said.system_message == Some(
                    text::trimmed_end(
                        render::drawing(s.head_tree->0, render::Colour::Plain),
                    ),
                )
                &&& said.decision is None
                &&& said.reason is None
                &&& said.hook_specific_output is None
            }
        }),
{
}

/// An event is answered by its own gate, and a payload that says it is for another is
/// not answered.
pub proof fn events_are_answered_by_their_gate(s: Option<SnapshotView>, payload: PayloadView)
    ensures
        ({
            let named = payload.hook_event_name;
            &&& named.len() == 0 || named == "SessionStart"@ ==> hook::response_to(
                s,
                Event::SessionStart,
                payload,
            ) == hook::at_session_start(s, payload)
            &&& named.len() == 0 || named == "PostToolUse"@ ==> hook::response_to(
                s,
                Event::PostToolUse,
                payload,
            ) == hook::after_tool_use(s, payload)
            &&& named.len() == 0 || named == "Stop"@ ==> hook::response_to(s, Event::Stop, payload)
                == hook::at_stop(s, payload)
            &&& named.len() > 0 && named != "SessionStart"@ ==> hook::response_to(
                s,
                Event::SessionStart,
                payload,
            ) == hook::silence()
            &&& named.len() > 0 && named != "PostToolUse"@ ==> hook::response_to(
                s,
                Event::PostToolUse,
                payload,
            ) == hook::silence()
            &&& named.len() > 0 && named != "Stop"@ ==> hook::response_to(s, Event::Stop, payload)
                == hook::silence()
        }),
{
}

/// An answer is written as an object with a member for each thing that it says, in a
/// fixed order, and none for what it does not say.
pub proof fn answers_are_written_member_by_member(r: ResponseView)
    ensures
        hook::envelope(r) == "{"@ + text::joined(
            (match r.decision {
                Some(t) => seq!["\"decision\":"@ + json::quoted(t)],
                None => Seq::empty(),
            }) + (match r.reason {
                Some(t) => seq!["\"reason\":"@ + json::quoted(t)],
                None => Seq::empty(),
            }) + (match r.system_message {
                Some(t) => seq!["\"systemMessage\":"@ + json::quoted(t)],
                None => Seq::empty(),
            }) + (match r.hook_specific_output {
                Some(specific) => seq![
                    "\"hookSpecificOutput\":"@ + ("{"@ + ("\"hookEventName\":"@ + json::quoted(
                        specific.hook_event_name,
                    )) + ","@ + ("\"additionalContext\":"@ + json::quoted(
                        specific.additional_context,
                    )) + "}"@),
                ],
                None => Seq::empty(),
            }),
            ","@,
        ) + "}"@,
{
    reveal_strlit("\"");
    reveal_strlit("\":");
    reveal_strlit("decision");
    reveal_strlit("reason");
    reveal_strlit("systemMessage");
    reveal_strlit("hookSpecificOutput");
    reveal_strlit("hookEventName");
    reveal_strlit("additionalContext");
    reveal_strlit("\"decision\":");
    reveal_strlit("\"reason\":");
    reveal_strlit("\"systemMessage\":");
    reveal_strlit("\"hookSpecificOutput\":");
    reveal_strlit("\"hookEventName\":");
    reveal_strlit("\"additionalContext\":");
    assert("\""@ + "decision"@ + "\":"@ =~= "\"decision\":"@);
    assert("\""@ + "reason"@ + "\":"@ =~= "\"reason\":"@);
    assert("\""@ + "systemMessage"@ + "\":"@ =~= "\"systemMessage\":"@);
    assert("\""@ + "hookSpecificOutput"@ + "\":"@ =~= "\"hookSpecificOutput\":"@);
    assert("\""@ + "hookEventName"@ + "\":"@ =~= "\"hookEventName\":"@);
    assert("\""@ + "additionalContext"@ + "\":"@ =~= "\"additionalContext\":"@);
}

} // verus!

//! Slug handles: `^[a-z0-9][a-z0-9-]*$`.

use vstd::prelude::*;

use crate::error::{Error, ErrorView};
use crate::text::{self, Text};

verus! {

/// A character that a slug may begin with.
pub open spec fn is_lead(c: char) -> bool {
    'a' <= c <= 'z' || '0' <= c <= '9'
}

/// The form of a slug: a lowercase letter or digit, then letters, digits and
/// dashes.
pub open spec fn well_formed(slug: Text) -> bool {
    &&& slug.len() > 0
    &&& is_lead(slug[0])
    &&& forall|i: int| 0 <= i < slug.len() ==> is_lead(#[trigger] slug[i]) || slug[i] == '-'
}

fn leads(c: char) -> (r: bool)
    ensures
        r == is_lead(c),
{
    ('a' <= c && c <= 'z') || ('0' <= c && c <= '9')
}

pub fn is_valid(slug: &str) -> (r: bool)
    ensures
        r == well_formed(slug@),
{
    let chars = text::chars_of(slug);
    if chars.len() == 0 {
        return false;
    }
    if !leads(chars[0]) {
        return false;
    }
    for i in 0..chars.len()
        invariant
            chars@ == slug@,
            forall|j: int| 0 <= j < i ==> is_lead(#[trigger] chars@[j]) || chars@[j] == '-',
    {
        if !leads(chars[i]) && chars[i] != '-' {
            assert(!(is_lead(slug@[i as int]) || slug@[i as int] == '-'));
            return false;
        }
    }
    true
}

/// Refuses a slug that is not well formed.
pub fn validate(slug: &str) -> (r: Result<(), Error>)
    ensures
        r is Ok <==> well_formed(slug@),
        r matches Err(e) ==> e@ == (ErrorView::MalformedSlug { slug: slug@ }),
{
    if is_valid(slug) {
        Ok(())
    } else {
        Err(Error::MalformedSlug { slug: text::owned(slug) })
    }
}

// ---------------------------------------------------------------------------
// Deriving a slug from text
// ---------------------------------------------------------------------------

/// An ASCII letter or digit, of either case.
pub open spec fn is_alphanumeric(c: char) -> bool {
    is_lead(c) || 'A' <= c <= 'Z'
}

/// The character with ASCII capitals made small.
pub open spec fn lower(c: char) -> char {
    if 'A' <= c <= 'Z' {
        ((c as u8) + 32) as u8 as char
    } else {
        c
    }
}

/// Letters and digits made small, and every run of anything else made a single
/// dash.
pub open spec fn dashed(t: Text) -> Text
    decreases t.len(),
{
    if t.len() == 0 {
        t
    } else {
        let front = dashed(t.drop_last());
        if is_alphanumeric(t.last()) {
            front.push(lower(t.last()))
        } else if front.len() > 0 && front.last() == '-' {
            front
        } else {
            front.push('-')
        }
    }
}

pub open spec fn without_leading_dashes(t: Text) -> Text
    decreases t.len(),
{
    if t.len() > 0 && t[0] == '-' {
        without_leading_dashes(t.skip(1))
    } else {
        t
    }
}

pub open spec fn without_trailing_dashes(t: Text) -> Text
    decreases t.len(),
{
    if t.len() > 0 && t.last() == '-' {
        without_trailing_dashes(t.drop_last())
    } else {
        t
    }
}

/// The slug that text turns into. It is empty for text without a letter or
/// digit.
pub open spec fn slug_of(t: Text) -> Text {
    without_trailing_dashes(without_leading_dashes(dashed(t)))
}

fn lowered(c: char) -> (r: char)
    ensures
        r == lower(c),
{
    if 'A' <= c && c <= 'Z' {
        ((c as u8) + 32) as char
    } else {
        c
    }
}

/// Text in the shape of a slug: lowercased, with every run of other characters
/// replaced by one dash, and no dash at either end. It is not shortened, and it
/// can come out empty, which [`validate`] refuses.
pub fn slugify(text: &str) -> (r: String)
    ensures
        r@ == slug_of(text@),
{
    let chars = text::chars_of(text);
    let mut out: Vec<char> = Vec::new();
    assert(text@.take(0) =~= Seq::<char>::empty());
    for i in 0..chars.len()
        invariant
            chars@ == text@,
            out@ == dashed(text@.take(i as int)),
    {
        let c = chars[i];
        proof {
            assert(text@.take(i + 1).drop_last() =~= text@.take(i as int));
            assert(text@.take(i + 1).last() == c);
        }
        if leads(c) || ('A' <= c && c <= 'Z') {
            out.push(lowered(c));
        } else if out.len() == 0 || out[out.len() - 1] != '-' {
            out.push('-');
        }
    }
    assert(text@.take(chars@.len() as int) =~= text@);
    let mut from: usize = 0;
    assert(out@.skip(0) =~= out@);
    while from < out.len() && out[from] == '-'
        invariant
            from <= out@.len(),
            without_leading_dashes(out@.skip(from as int)) == without_leading_dashes(out@),
        decreases out@.len() - from,
    {
        assert(out@.skip(from as int).skip(1) =~= out@.skip(from + 1));
        from = from + 1;
    }
    let mut to: usize = out.len();
    assert(out@.skip(from as int) =~= out@.subrange(from as int, to as int));
    while from < to && out[to - 1] == '-'
        invariant
            from <= to <= out@.len(),
            without_trailing_dashes(out@.subrange(from as int, to as int))
                == without_trailing_dashes(out@.skip(from as int)),
        decreases to - from,
    {
        assert(out@.subrange(from as int, to as int).drop_last() =~= out@.subrange(
            from as int,
            to - 1,
        ));
        to = to - 1;
    }
    text::text_of(&out, from, to)
}

// ---------------------------------------------------------------------------
// Laws
// ---------------------------------------------------------------------------

/// Small letters, digits and single dashes.
spec fn is_dashed(t: Text) -> bool {
    &&& forall|i: int| 0 <= i < t.len() ==> is_lead(#[trigger] t[i]) || t[i] == '-'
    &&& forall|i: int|
        0 <= i < t.len() - 1 && #[trigger] t[i] == '-' ==> t[i + 1] != '-'
}

proof fn lemma_lower(c: char)
    requires
        is_alphanumeric(c),
    ensures
        is_lead(lower(c)),
{
    if 'A' <= c <= 'Z' {
        let b = c as u8;
        assert(65 <= b <= 90);
        assert((b + 32) as u8 as char == (c as u32 + 32) as char);
    }
}

proof fn lemma_dashed(t: Text)
    ensures
        is_dashed(dashed(t)),
    decreases t.len(),
{
    if t.len() > 0 {
        let front = dashed(t.drop_last());
        lemma_dashed(t.drop_last());
        if is_alphanumeric(t.last()) {
            lemma_lower(t.last());
        }
        let all = dashed(t);
        assert forall|i: int| 0 <= i < all.len() - 1 && #[trigger] all[i] == '-' implies all[i + 1]
            != '-' by {
            if all.len() == front.len() + 1 {
                assert(all[i] == front[i]);
                if i + 1 < front.len() {
                    assert(all[i + 1] == front[i + 1]);
                } else {
                    assert(front.last() == '-');
                }
            } else {
                assert(all[i] == front[i]);
            }
        }
    }
}

proof fn lemma_without_leading(t: Text)
    requires
        is_dashed(t),
    ensures
        is_dashed(without_leading_dashes(t)),
        without_leading_dashes(t).len() > 0 ==> without_leading_dashes(t)[0] != '-',
    decreases t.len(),
{
    if t.len() > 0 && t[0] == '-' {
        let rest = t.skip(1);
        assert forall|i: int| 0 <= i < rest.len() - 1 && #[trigger] rest[i] == '-' implies rest[i
            + 1] != '-' by {
            assert(t[i + 1] == '-');
        }
        lemma_without_leading(rest);
    }
}

proof fn lemma_without_trailing(t: Text)
    requires
        is_dashed(t),
    ensures
        is_dashed(without_trailing_dashes(t)),
        without_trailing_dashes(t).len() > 0 ==> without_trailing_dashes(t).last() != '-',
        without_trailing_dashes(t).len() > 0 ==> without_trailing_dashes(t)[0] == t[0],
    decreases t.len(),
{
    if t.len() > 0 && t.last() == '-' {
        let rest = t.drop_last();
        assert forall|i: int| 0 <= i < rest.len() - 1 && #[trigger] rest[i] == '-' implies rest[i
            + 1] != '-' by {
            assert(t[i] == '-');
        }
        lemma_without_trailing(rest);
    }
}

/// Whatever the text, the slug it turns into is well formed or empty.
pub proof fn derived_slug_is_well_formed(t: Text)
    ensures
        slug_of(t).len() == 0 || well_formed(slug_of(t)),
{
    lemma_dashed(t);
    lemma_without_leading(dashed(t));
    lemma_without_trailing(without_leading_dashes(dashed(t)));
    let s = slug_of(t);
    if s.len() > 0 {
        assert(s[0] != '-');
        assert(is_lead(s[0]) || s[0] == '-');
    }
}

proof fn lemma_dashed_fixed(t: Text)
    requires
        is_dashed(t),
    ensures
        dashed(t) == t,
    decreases t.len(),
{
    if t.len() > 0 {
        let front = t.drop_last();
        assert forall|i: int| 0 <= i < front.len() - 1 && #[trigger] front[i] == '-' implies front[i
            + 1] != '-' by {
            assert(t[i] == '-');
        }
        lemma_dashed_fixed(front);
        assert(is_lead(t[t.len() - 1]) || t[t.len() - 1] == '-');
        if !is_lead(t.last()) && front.len() > 0 {
            assert(front.last() == t[t.len() - 2]);
        }
        assert(front.push(t.last()) =~= t);
    }
}

/// A derived slug is already in its final shape: deriving again changes nothing.
pub proof fn deriving_twice_changes_nothing(t: Text)
    ensures
        slug_of(slug_of(t)) == slug_of(t),
{
    lemma_dashed(t);
    lemma_without_leading(dashed(t));
    lemma_without_trailing(without_leading_dashes(dashed(t)));
    lemma_dashed_fixed(slug_of(t));
}

} // verus!

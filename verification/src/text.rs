//! Text as sequences of characters: comparison, ordering, trimming and the
//! decimal notation of counts.

use vstd::prelude::*;

verus! {

/// The characters of a string, which is what every contract speaks of.
pub type Text = Seq<char>;

/// `String::push` of the standard library: the character is appended to the end.
pub assume_specification[ String::push ](s: &mut String, c: char)
    ensures
        final(s)@ == old(s)@.push(c),
;

// ---------------------------------------------------------------------------
// Views of optional and repeated text
// ---------------------------------------------------------------------------

pub open spec fn optional(text: Option<String>) -> Option<Text> {
    match text {
        Some(t) => Some(t@),
        None => None,
    }
}

pub open spec fn optional_str(text: Option<&str>) -> Option<Text> {
    match text {
        Some(t) => Some(t@),
        None => None,
    }
}

pub open spec fn texts(list: Seq<String>) -> Seq<Text> {
    list.map_values(|t: String| t@)
}

pub open spec fn str_texts(list: Seq<&str>) -> Seq<Text> {
    list.map_values(|t: &str| t@)
}

// ---------------------------------------------------------------------------
// Characters in and out
// ---------------------------------------------------------------------------

/// The characters of `s`.
pub fn chars_of(s: &str) -> (out: Vec<char>)
    ensures
        out@ == s@,
{
    let mut out: Vec<char> = Vec::new();
    for c in it: s.chars()
        invariant
            out@ == s@.take(it.index() as int),
            it.seq() == s@,
    {
        out.push(c);
        assert(s@.take(it.index() + 1) =~= s@.take(it.index() as int).push(c));
    }
    assert(s@.take(s@.len() as int) =~= s@);
    out
}

/// The text made of the characters `from..to`.
pub fn text_of(chars: &Vec<char>, from: usize, to: usize) -> (out: String)
    requires
        from <= to <= chars@.len(),
    ensures
        out@ == chars@.subrange(from as int, to as int),
{
    let mut out = String::new();
    let mut at: usize = from;
    while at < to
        invariant
            from <= at <= to <= chars@.len(),
            out@ == chars@.subrange(from as int, at as int),
        decreases to - at,
    {
        out.push(chars[at]);
        assert(chars@.subrange(from as int, at + 1) =~= chars@.subrange(from as int, at as int).push(
            chars@[at as int],
        ));
        at = at + 1;
    }
    out
}

/// An owned copy.
pub fn owned(s: &str) -> (out: String)
    ensures
        out@ == s@,
{
    s.to_owned()
}

/// An owned copy of optional text.
pub fn owned_option(s: Option<&str>) -> (out: Option<String>)
    ensures
        optional(out) == optional_str(s),
{
    match s {
        Some(t) => Some(owned(t)),
        None => None,
    }
}

pub fn clone_option(s: &Option<String>) -> (out: Option<String>)
    ensures
        optional(out) == optional(*s),
{
    match s {
        Some(t) => Some(t.clone()),
        None => None,
    }
}

pub fn clone_texts(list: &Vec<String>) -> (out: Vec<String>)
    ensures
        texts(out@) == texts(list@),
{
    let mut out: Vec<String> = Vec::new();
    for i in 0..list.len()
        invariant
            out@.len() == i,
            forall|j: int| 0 <= j < i ==> (#[trigger] out@[j])@ == list@[j]@,
    {
        out.push(list[i].clone());
    }
    assert(texts(out@) =~= texts(list@));
    out
}

// ---------------------------------------------------------------------------
// Equality and membership
// ---------------------------------------------------------------------------

pub fn same(a: &str, b: &str) -> (r: bool)
    ensures
        r == (a@ == b@),
{
    let x = chars_of(a);
    let y = chars_of(b);
    if x.len() != y.len() {
        return false;
    }
    for i in 0..x.len()
        invariant
            x@ == a@,
            y@ == b@,
            x@.len() == y@.len(),
            forall|j: int| 0 <= j < i ==> x@[j] == y@[j],
    {
        if x[i] != y[i] {
            return false;
        }
    }
    assert(a@ =~= b@);
    true
}

pub fn same_option(a: &Option<String>, b: Option<&str>) -> (r: bool)
    ensures
        r == (optional(*a) == optional_str(b)),
{
    match (a, b) {
        (Some(x), Some(y)) => same(x.as_str(), y),
        (None, None) => true,
        _ => false,
    }
}

/// Whether `t` is one of `list`.
pub fn listed(list: &Vec<String>, t: &str) -> (r: bool)
    ensures
        r == texts(list@).contains(t@),
{
    for i in 0..list.len()
        invariant
            forall|j: int| 0 <= j < i ==> (#[trigger] list@[j])@ != t@,
    {
        if same(list[i].as_str(), t) {
            assert(texts(list@)[i as int] == t@);
            return true;
        }
    }
    assert forall|j: int| 0 <= j < texts(list@).len() implies texts(list@)[j] != t@ by {
        assert(texts(list@)[j] == list@[j]@);
    }
    false
}

// ---------------------------------------------------------------------------
// The order of text
// ---------------------------------------------------------------------------

/// `a` comes strictly before `b`: at the first place where they part, `a` has
/// the lower character or has ended.
pub open spec fn before(a: Text, b: Text) -> bool
    decreases a.len(),
{
    if b.len() == 0 {
        false
    } else if a.len() == 0 {
        true
    } else if a[0] == b[0] {
        before(a.skip(1), b.skip(1))
    } else {
        a[0] < b[0]
    }
}

/// Nothing comes before itself.
pub proof fn before_irreflexive(a: Text)
    ensures
        !before(a, a),
    decreases a.len(),
{
    if a.len() > 0 {
        before_irreflexive(a.skip(1));
    }
}

pub proof fn before_transitive(a: Text, b: Text, c: Text)
    requires
        before(a, b),
        before(b, c),
    ensures
        before(a, c),
    decreases a.len(),
{
    if a.len() > 0 && b.len() > 0 && c.len() > 0 {
        if a[0] == b[0] && b[0] == c[0] {
            before_transitive(a.skip(1), b.skip(1), c.skip(1));
        }
    }
}

pub proof fn before_total(a: Text, b: Text)
    ensures
        before(a, b) || a == b || before(b, a),
    decreases a.len(),
{
    if a.len() > 0 && b.len() > 0 {
        if a[0] == b[0] {
            before_total(a.skip(1), b.skip(1));
            if a.skip(1) == b.skip(1) {
                assert(a =~= seq![a[0]] + a.skip(1));
                assert(b =~= seq![b[0]] + b.skip(1));
            }
        }
    } else if a.len() == 0 && b.len() == 0 {
        assert(a =~= b);
    }
}

/// Where `a` and `b` share their first `k` characters, their order is that of
/// what is left.
proof fn before_after_shared(a: Text, b: Text, k: int)
    requires
        0 <= k <= a.len(),
        k <= b.len(),
        a.take(k) == b.take(k),
    ensures
        before(a, b) == before(a.skip(k), b.skip(k)),
    decreases k,
{
    if k == 0 {
        assert(a.skip(0) =~= a);
        assert(b.skip(0) =~= b);
    } else {
        assert(a[0] == a.take(k)[0]);
        assert(b[0] == b.take(k)[0]);
        assert(a.skip(1).take(k - 1) =~= a.take(k).skip(1));
        assert(b.skip(1).take(k - 1) =~= b.take(k).skip(1));
        before_after_shared(a.skip(1), b.skip(1), k - 1);
        assert(a.skip(1).skip(k - 1) =~= a.skip(k));
        assert(b.skip(1).skip(k - 1) =~= b.skip(k));
    }
}

/// Whether `a` comes strictly before `b`.
pub fn is_before(a: &str, b: &str) -> (r: bool)
    ensures
        r == before(a@, b@),
{
    let x = chars_of(a);
    let y = chars_of(b);
    let mut at: usize = 0;
    while at < x.len() && at < y.len()
        invariant
            x@ == a@,
            y@ == b@,
            at <= x@.len(),
            at <= y@.len(),
            a@.take(at as int) == b@.take(at as int),
        decreases x@.len() - at,
    {
        proof {
            before_after_shared(a@, b@, at as int);
        }
        if x[at] != y[at] {
            return x[at] < y[at];
        }
        assert(a@.take(at + 1) =~= a@.take(at as int).push(a@[at as int]));
        assert(b@.take(at + 1) =~= b@.take(at as int).push(b@[at as int]));
        at = at + 1;
    }
    proof {
        before_after_shared(a@, b@, at as int);
    }
    at < y.len()
}

// ---------------------------------------------------------------------------
// Decimal notation
// ---------------------------------------------------------------------------

pub open spec fn digit(d: nat) -> char {
    if d == 0 {
        '0'
    } else if d == 1 {
        '1'
    } else if d == 2 {
        '2'
    } else if d == 3 {
        '3'
    } else if d == 4 {
        '4'
    } else if d == 5 {
        '5'
    } else if d == 6 {
        '6'
    } else if d == 7 {
        '7'
    } else if d == 8 {
        '8'
    } else {
        '9'
    }
}

/// A number in decimal notation, without leading zeros.
pub open spec fn decimal(n: nat) -> Text
    decreases n,
{
    if n < 10 {
        seq![digit(n)]
    } else {
        decimal(n / 10).push(digit(n % 10))
    }
}

fn digit_of(d: u64) -> (c: char)
    requires
        d < 10,
    ensures
        c == digit(d as nat),
{
    if d == 0 {
        '0'
    } else if d == 1 {
        '1'
    } else if d == 2 {
        '2'
    } else if d == 3 {
        '3'
    } else if d == 4 {
        '4'
    } else if d == 5 {
        '5'
    } else if d == 6 {
        '6'
    } else if d == 7 {
        '7'
    } else if d == 8 {
        '8'
    } else {
        '9'
    }
}

pub fn decimal_of(n: u64) -> (out: String)
    ensures
        out@ == decimal(n as nat),
    decreases n,
{
    if n < 10 {
        let mut out = String::new();
        out.push(digit_of(n));
        assert(out@ =~= seq![digit(n as nat)]);
        out
    } else {
        let mut out = decimal_of(n / 10);
        out.push(digit_of(n % 10));
        out
    }
}

// ---------------------------------------------------------------------------
// Putting text together
// ---------------------------------------------------------------------------

/// The texts one behind the other.
pub open spec fn concat(parts: Seq<Text>) -> Text
    decreases parts.len(),
{
    if parts.len() == 0 {
        Seq::empty()
    } else {
        concat(parts.drop_last()) + parts.last()
    }
}

/// The texts one behind the other, with `between` between every two.
pub open spec fn joined(parts: Seq<Text>, between: Text) -> Text
    decreases parts.len(),
{
    if parts.len() == 0 {
        Seq::empty()
    } else if parts.len() == 1 {
        parts[0]
    } else {
        joined(parts.drop_last(), between) + between + parts.last()
    }
}

pub open spec fn spaces(n: nat) -> Text {
    Seq::new(n, |i: int| ' ')
}

pub fn join(parts: &Vec<String>, between: &str) -> (r: String)
    ensures
        r@ == joined(texts(parts@), between@),
{
    let ghost all = texts(parts@);
    let mut out = String::new();
    assert(out@ =~= joined(all.take(0), between@));
    for i in 0..parts.len()
        invariant
            all == texts(parts@),
            out@ == joined(all.take(i as int), between@),
    {
        proof {
            assert(all[i as int] == parts@[i as int]@);
            assert(all.take(i + 1).drop_last() =~= all.take(i as int));
            assert(all.take(i + 1).last() == all[i as int]);
        }
        if i > 0 {
            out.append(between);
        } else {
            assert(all.take(0) =~= Seq::<Text>::empty());
            assert(Seq::<char>::empty() + all[0] =~= all[0]);
        }
        out.append(parts[i].as_str());
    }
    assert(all.take(parts@.len() as int) =~= all);
    out
}

/// Appends `n` blanks.
pub fn push_spaces(out: &mut String, n: usize)
    ensures
        final(out)@ == old(out)@ + spaces(n as nat),
{
    assert(out@ + spaces(0) =~= out@);
    for i in 0..n
        invariant
            out@ == old(out)@ + spaces(i as nat),
    {
        out.push(' ');
        assert(old(out)@ + spaces((i + 1) as nat) =~= (old(out)@ + spaces(i as nat)).push(' '));
    }
}

/// The given texts one behind the other.
pub fn glue(parts: &Vec<&str>) -> (r: String)
    ensures
        r@ == concat(str_texts(parts@)),
{
    let ghost all = str_texts(parts@);
    let mut out = String::new();
    assert(out@ =~= concat(all.take(0)));
    for i in 0..parts.len()
        invariant
            all == str_texts(parts@),
            out@ == concat(all.take(i as int)),
    {
        proof {
            assert(all[i as int] == parts@[i as int]@);
            assert(all.take(i + 1).drop_last() =~= all.take(i as int));
            assert(all.take(i + 1).last() == all[i as int]);
        }
        out.append(parts[i]);
    }
    assert(all.take(parts@.len() as int) =~= all);
    out
}

/// `part` stands somewhere in `t`.
pub open spec fn mentions(t: Text, part: Text) -> bool {
    exists|from: int|
        0 <= from <= t.len() - part.len() && #[trigger] t.subrange(from, from + part.len()) == part
}

pub proof fn mentions_what_a_part_mentions(t: Text, part: Text, inner: Text)
    requires
        mentions(t, part),
        mentions(part, inner),
    ensures
        mentions(t, inner),
{
    let a = choose|from: int|
        0 <= from <= t.len() - part.len() && #[trigger] t.subrange(from, from + part.len()) == part;
    let b = choose|from: int|
        0 <= from <= part.len() - inner.len() && #[trigger] part.subrange(from, from + inner.len())
            == inner;
    assert(t.subrange(a + b, a + b + inner.len()) =~= inner) by {
        assert(t.subrange(a, a + part.len()) =~= part);
        assert forall|i: int| 0 <= i < inner.len() implies t[a + b + i] == inner[i] by {
            assert(part[b + i] == t.subrange(a, a + part.len())[b + i]);
            assert(part.subrange(b, b + inner.len())[i] == part[b + i]);
        }
    }
}

/// Text put together of parts mentions each of them.
pub proof fn concat_mentions_its_parts(parts: Seq<Text>, i: int)
    requires
        0 <= i < parts.len(),
    ensures
        mentions(concat(parts), parts[i]),
    decreases parts.len(),
{
    let front = concat(parts.drop_last());
    let all = concat(parts);
    if i == parts.len() - 1 {
        assert(all.subrange(front.len() as int, front.len() as int + parts[i].len()) =~= parts[i]);
    } else {
        concat_mentions_its_parts(parts.drop_last(), i);
        assert(all.subrange(0, 0int + front.len()) =~= front);
        assert(mentions(all, front));
        mentions_what_a_part_mentions(all, front, parts[i]);
    }
}

/// Text joined of parts mentions each of them.
pub proof fn joined_mentions_its_parts(parts: Seq<Text>, between: Text, i: int)
    requires
        0 <= i < parts.len(),
    ensures
        mentions(joined(parts, between), parts[i]),
    decreases parts.len(),
{
    let all = joined(parts, between);
    if parts.len() == 1 {
        assert(all.subrange(0, 0int + all.len()) =~= parts[i]);
    } else {
        let front = joined(parts.drop_last(), between);
        if i == parts.len() - 1 {
            let from = (front.len() + between.len()) as int;
            assert(all.subrange(from, from + parts[i].len()) =~= parts[i]);
        } else {
            joined_mentions_its_parts(parts.drop_last(), between, i);
            assert(all.subrange(0, 0int + front.len()) =~= front);
            assert(mentions(all, front));
            mentions_what_a_part_mentions(all, front, parts[i]);
        }
    }
}

// ---------------------------------------------------------------------------
// White space
// ---------------------------------------------------------------------------

/// The characters that Unicode gives the property `White_Space`.
pub open spec fn is_white_space(c: char) -> bool {
    ||| '\u{9}' <= c <= '\u{d}'
    ||| c == '\u{20}'
    ||| c == '\u{85}'
    ||| c == '\u{a0}'
    ||| c == '\u{1680}'
    ||| '\u{2000}' <= c <= '\u{200a}'
    ||| c == '\u{2028}'
    ||| c == '\u{2029}'
    ||| c == '\u{202f}'
    ||| c == '\u{205f}'
    ||| c == '\u{3000}'
}

/// The text without the white space at its end.
pub open spec fn trimmed_end(t: Text) -> Text
    decreases t.len(),
{
    if t.len() > 0 && is_white_space(t.last()) {
        trimmed_end(t.drop_last())
    } else {
        t
    }
}

/// The text without the white space at its beginning.
pub open spec fn trimmed_start(t: Text) -> Text
    decreases t.len(),
{
    if t.len() > 0 && is_white_space(t[0]) {
        trimmed_start(t.skip(1))
    } else {
        t
    }
}

/// The text without the white space at either end.
pub open spec fn trimmed(t: Text) -> Text {
    trimmed_end(trimmed_start(t))
}

fn white(c: char) -> (r: bool)
    ensures
        r == is_white_space(c),
{
    ('\u{9}' <= c && c <= '\u{d}') || c == '\u{20}' || c == '\u{85}' || c == '\u{a0}' || c
        == '\u{1680}' || ('\u{2000}' <= c && c <= '\u{200a}') || c == '\u{2028}' || c
        == '\u{2029}' || c == '\u{202f}' || c == '\u{205f}' || c == '\u{3000}'
}

/// The text without the white space at its end.
pub fn trim_end(t: &str) -> (r: &str)
    ensures
        r@ == trimmed_end(t@),
{
    let chars = chars_of(t);
    let mut end: usize = chars.len();
    assert(t@.take(end as int) =~= t@);
    while end > 0 && white(chars[end - 1])
        invariant
            chars@ == t@,
            end <= chars@.len(),
            trimmed_end(t@) == trimmed_end(t@.take(end as int)),
        decreases end,
    {
        assert(t@.take(end as int).drop_last() =~= t@.take(end - 1));
        assert(t@.take(end as int).last() == chars@[end - 1]);
        end = end - 1;
    }
    proof {
        let front = t@.take(end as int);
        if front.len() > 0 {
            assert(front.last() == chars@[end - 1]);
        }
        assert(t@.subrange(0, end as int) =~= front);
    }
    t.substring_char(0, end)
}

/// The text without the white space at either end.
pub fn trim(t: &str) -> (r: &str)
    ensures
        r@ == trimmed(t@),
{
    let chars = chars_of(t);
    let count: usize = chars.len();
    let mut start: usize = 0;
    assert(t@.skip(0) =~= t@);
    while start < count && white(chars[start])
        invariant
            chars@ == t@,
            count == chars@.len(),
            start <= count,
            trimmed_start(t@) == trimmed_start(t@.skip(start as int)),
        decreases count - start,
    {
        assert(t@.skip(start as int).skip(1) =~= t@.skip(start + 1));
        assert(t@.skip(start as int)[0] == chars@[start as int]);
        start = start + 1;
    }
    proof {
        let rest = t@.skip(start as int);
        if rest.len() > 0 {
            assert(rest[0] == chars@[start as int]);
        }
        assert(t@.subrange(start as int, count as int) =~= rest);
    }
    trim_end(t.substring_char(start, count))
}

} // verus!

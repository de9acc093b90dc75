//! Paths as text: the directory that holds a path, and those above it.
//!
//! A path is names with slashes between them. Slashes at its end or next to each
//! other, and names that are a single dot, say nothing of where it leads. A dot at
//! its very beginning is kept, and so is the root.

use vstd::prelude::*;

use crate::text::{self, Text};

verus! {

/// A path from the root.
pub open spec fn is_rooted(path: Text) -> bool {
    path.len() > 0 && path[0] == '/'
}

/// The first name of the path is a single dot.
pub open spec fn is_dotted(path: Text) -> bool {
    path.len() > 0 && path[0] == '.' && (path.len() == 1 || path[1] == '/')
}

/// Where what follows the root, or the dot at the beginning, begins.
pub open spec fn body(path: Text) -> int {
    if is_rooted(path) || is_dotted(path) {
        1
    } else {
        0
    }
}

/// Where the last name begins of what ends at `end`.
pub open spec fn name_from(path: Text, end: int) -> int
    decreases end,
{
    if end <= body(path) || path[end - 1] == '/' {
        end
    } else {
        name_from(path, end - 1)
    }
}

pub open spec fn last_name(path: Text) -> Text {
    path.skip(name_from(path, path.len() as int))
}

/// The path without its last name and the slash before it.
pub open spec fn shortened(path: Text) -> Text {
    let from = name_from(path, path.len() as int);
    path.take(
        if from > body(path) {
            from - 1
        } else {
            from
        },
    )
}

/// A name that says nothing of where a path leads.
pub open spec fn is_idle(name: Text) -> bool {
    name.len() == 0 || name == seq!['.']
}

/// The path without what stands idle at its end.
pub open spec fn trimmed(path: Text) -> Text
    decreases path.len(),
    via trimmed_ends
{
    if path.len() > body(path) && is_idle(last_name(path)) {
        trimmed(shortened(path))
    } else {
        path
    }
}

proof fn lemma_name_from(path: Text, end: int)
    requires
        body(path) <= end <= path.len(),
    ensures
        body(path) <= name_from(path, end) <= end,
    decreases end,
{
    if end > body(path) && path[end - 1] != '/' {
        lemma_name_from(path, end - 1);
    }
}

proof fn lemma_shortened(path: Text)
    requires
        path.len() > body(path),
    ensures
        body(path) <= shortened(path).len() < path.len(),
{
    lemma_name_from(path, path.len() as int);
}

#[via_fn]
proof fn trimmed_ends(path: Text) {
    if path.len() > body(path) {
        lemma_shortened(path);
    }
}

proof fn lemma_trimmed(path: Text)
    ensures
        trimmed(path).len() <= path.len(),
        trimmed(path).len() <= body(trimmed(path)) || !is_idle(last_name(trimmed(path))),
    decreases path.len(),
{
    if path.len() > body(path) && is_idle(last_name(path)) {
        lemma_shortened(path);
        lemma_trimmed(shortened(path));
    }
}

/// The directory that holds a path. The root has none. A path that is one name is
/// held by the empty path, which has none either.
pub open spec fn parent_of(path: Text) -> Option<Text> {
    let bare = trimmed(path);
    if bare.len() > body(bare) {
        Some(trimmed(shortened(bare)))
    } else if is_dotted(bare) {
        Some(Seq::empty())
    } else {
        None
    }
}

proof fn lemma_parent(path: Text)
    ensures
        parent_of(path) matches Some(up) ==> up.len() < path.len(),
{
    let bare = trimmed(path);
    lemma_trimmed(path);
    if bare.len() > body(bare) {
        lemma_shortened(bare);
        lemma_trimmed(shortened(bare));
    }
}

/// A path and the directories above it, the nearest first.
pub open spec fn ancestors_of(path: Text) -> Seq<Text>
    decreases path.len(),
    via ancestors_end
{
    match parent_of(path) {
        Some(up) => seq![path] + ancestors_of(up),
        None => seq![path],
    }
}

#[via_fn]
proof fn ancestors_end(path: Text) {
    lemma_parent(path);
}

/// The path of `name` in a directory. A name that is a path from the root is its
/// own path, whatever the directory.
pub open spec fn within(dir: Text, name: Text) -> Text {
    if is_rooted(name) {
        name
    } else if dir.len() == 0 || dir.last() == '/' {
        dir + name
    } else {
        dir + "/"@ + name
    }
}

/// A name that leads to something in a directory.
pub open spec fn is_plain(name: Text) -> bool {
    !is_idle(name) && forall|i: int| 0 <= i < name.len() ==> #[trigger] name[i] != '/'
}

proof fn lemma_name_found(path: Text, at: int, end: int)
    requires
        body(path) <= at <= end <= path.len(),
        at == body(path) || path[at - 1] == '/',
        forall|i: int| at <= i < end ==> #[trigger] path[i] != '/',
    ensures
        name_from(path, end) == at,
    decreases end - at,
{
    if at < end {
        assert(path[end - 1] != '/');
        lemma_name_found(path, at, end - 1);
    }
}

/// What is in a directory is held by it, and has the same directories above it.
pub proof fn directory_holds_what_is_in_it(dir: Text, name: Text)
    requires
        is_plain(name),
        trimmed(dir) == dir,
    ensures
        parent_of(within(dir, name)) == Some(dir),
        ancestors_of(within(dir, name)) == seq![within(dir, name)] + ancestors_of(dir),
{
    let path = within(dir, name);
    let end = path.len() as int;
    let at = end - name.len();
    reveal_strlit("/");
    assert(name[0] != '/');
    assert(path.skip(at) =~= name);
    assert(name.len() == 1 ==> name[0] != '.') by {
        if name.len() == 1 && name[0] == '.' {
            assert(name =~= seq!['.']);
        }
    }
    if dir.len() > 0 && dir.last() == '/' {
        if dir.len() > body(dir) {
            lemma_name_found(dir, dir.len() as int, dir.len() as int);
            lemma_shortened(dir);
            lemma_trimmed(shortened(dir));
        }
        assert(dir.len() == 1);
    }
    assert forall|i: int| at <= i < end implies #[trigger] path[i] != '/' by {
        assert(path[i] == name[i - at]);
    }
    assert(at > 0 ==> path[at - 1] == '/');
    assert(body(path) <= at) by {
        if dir.len() == 0 {
            assert(path =~= name);
            assert(name.len() > 1 ==> name[1] != '/');
        }
    }
    if at == 0 {
        assert(path =~= name);
    }
    lemma_name_found(path, at, end);
    assert(shortened(path) =~= dir);
}

fn find_body(path: &Vec<char>) -> (r: usize)
    ensures
        r == body(path@),
        r <= path@.len(),
{
    let count: usize = path.len();
    if count > 0 && (path[0] == '/' || (path[0] == '.' && (count == 1 || path[1] == '/'))) {
        1
    } else {
        0
    }
}

fn find_name(path: &Vec<char>) -> (r: usize)
    ensures
        r == name_from(path@, path@.len() as int),
        body(path@) <= r <= path@.len(),
{
    let start = find_body(path);
    let mut at: usize = path.len();
    while at > start && path[at - 1] != '/'
        invariant
            start == body(path@),
            start <= at <= path@.len(),
            name_from(path@, at as int) == name_from(path@, path@.len() as int),
        decreases at,
    {
        at = at - 1;
    }
    at
}

fn shorten(path: &mut Vec<char>)
    requires
        old(path)@.len() > body(old(path)@),
    ensures
        final(path)@ == shortened(old(path)@),
        final(path)@.len() < old(path)@.len(),
{
    let ghost before = path@;
    let start = find_body(path);
    let from = find_name(path);
    let end: usize = if from > start {
        from - 1
    } else {
        from
    };
    path.truncate(end);
    assert(path@ =~= shortened(before));
}

fn trim(path: &mut Vec<char>)
    ensures
        final(path)@ == trimmed(old(path)@),
        final(path)@.len() <= old(path)@.len(),
{
    loop
        invariant
            trimmed(path@) == trimmed(old(path)@),
            path@.len() <= old(path)@.len(),
        decreases path@.len(),
    {
        let count: usize = path.len();
        if count <= find_body(path) {
            return;
        }
        let from = find_name(path);
        let idle = from == count || (from == count - 1 && path[from] == '.');
        proof {
            let name = last_name(path@);
            if from == count - 1 {
                assert(name =~= seq![path@[from as int]]);
                assert(name[0] == path@[from as int]);
                assert(seq!['.'][0] == '.');
            } else if name == seq!['.'] {
                assert(name.len() == 1);
            }
            assert(idle == is_idle(name));
        }
        if !idle {
            return;
        }
        shorten(path);
    }
}

/// The path of `name` in a directory.
pub fn join(dir: &str, name: &str) -> (r: String)
    ensures
        r@ == within(dir@, name@),
{
    let names = text::chars_of(name);
    if names.len() > 0 && names[0] == '/' {
        return text::owned(name);
    }
    let chars = text::chars_of(dir);
    let count: usize = chars.len();
    let mut out = text::owned(dir);
    if count > 0 && chars[count - 1] != '/' {
        out.append("/");
    }
    out.append(name);
    out
}

/// The directory that holds a path, if there is one.
pub fn parent(path: &str) -> (r: Option<String>)
    ensures
        text::optional(r) == parent_of(path@),
{
    let mut bare = text::chars_of(path);
    trim(&mut bare);
    let count: usize = bare.len();
    if count > find_body(&bare) {
        shorten(&mut bare);
        trim(&mut bare);
        let all: usize = bare.len();
        assert(bare@.subrange(0, all as int) =~= bare@);
        Some(text::text_of(&bare, 0, all))
    } else if count > 0 && bare[0] == '.' {
        Some(String::new())
    } else {
        None
    }
}

/// A path and the directories above it, the nearest first.
pub fn ancestors(path: &str) -> (r: Vec<String>)
    ensures
        text::texts(r@) == ancestors_of(path@),
{
    let mut out: Vec<String> = Vec::new();
    let mut at = text::owned(path);
    assert(text::texts(out@) + ancestors_of(at@) =~= ancestors_of(path@));
    loop
        invariant
            text::texts(out@) + ancestors_of(at@) == ancestors_of(path@),
        decreases at@.len(),
    {
        let ghost before = text::texts(out@);
        let ghost here = at@;
        let up = parent(at.as_str());
        proof {
            lemma_parent(here);
        }
        out.push(at);
        assert(text::texts(out@) =~= before.push(here));
        match up {
            None => {
                assert(before + seq![here] =~= before.push(here));
                return out;
            },
            Some(up) => {
                assert(before.push(here) + ancestors_of(up@) =~= before + (seq![here]
                    + ancestors_of(up@)));
                at = up;
            },
        }
    }
}

} // verus!

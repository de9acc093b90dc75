//! The store: one directory that holds the trees, a file that names the active
//! one, and beside each tree the file that its lock is taken on.
//!
//! Nothing here touches a disk. These functions say which file is meant, what
//! goes into it, and what is made of what was found there.

use vstd::prelude::*;

use crate::error::{Error, ErrorView};
use crate::model::{self, Tree, TreeView};
use crate::order;
use crate::paths;
use crate::slug as slugs;
use crate::text::{self, Text};

verus! {

/// The name of the directory.
pub const DIR: &'static str = ".hydra";

/// The name of the file that holds the slug of the active tree.
pub const HEAD: &'static str = "HEAD";

/// The name of the file that holds the lease.
pub const GRILL: &'static str = "grill";

/// What the name of a tree's file ends in.
pub const TREE_SUFFIX: &'static str = ".json";

/// What the name of a lock's file ends in.
pub const LOCK_SUFFIX: &'static str = ".lock";

/// How long to wait for a lock, and how long between two tries, in milliseconds.
/// Contention is a second session in the same repository, no more.
pub const LOCK_TIMEOUT: u64 = 5000;

pub const LOCK_POLL: u64 = 20;

// ---------------------------------------------------------------------------
// Paths
// ---------------------------------------------------------------------------

pub open spec fn tree_file(slug: Text) -> Text {
    slug + TREE_SUFFIX@
}

pub open spec fn lock_file(slug: Text) -> Text {
    slug + LOCK_SUFFIX@
}

/// A store, by the path of its directory.
#[derive(Debug)]
pub struct Store {
    dir: String,
}

impl View for Store {
    type V = Text;

    closed spec fn view(&self) -> Text {
        self.dir@
    }
}

impl Clone for Store {
    fn clone(&self) -> (r: Self)
        ensures
            r@ == self@,
    {
        Store { dir: self.dir.clone() }
    }
}

/// A file to be written, whole or not at all.
#[derive(Debug)]
pub struct Write {
    pub path: String,
    pub contents: String,
}

/// The first directory of a list that is among those that hold a store.
pub open spec fn nearest(dirs: Seq<Text>, holding: Seq<Text>) -> Option<Text>
    decreases dirs.len(),
{
    if dirs.len() == 0 {
        None
    } else if holding.contains(dirs[0]) {
        Some(dirs[0])
    } else {
        nearest(dirs.skip(1), holding)
    }
}

/// The directory whose store is that of `start`: the nearest, from `start` upwards,
/// that holds one.
pub open spec fn home_of(start: Text, holding: Seq<Text>) -> Option<Text> {
    nearest(paths::ancestors_of(start), holding)
}

impl Store {
    /// The store of `start`: that of the nearest directory, from `start` upwards,
    /// that holds one. `holding` lists those that do.
    pub fn discover_from(start: &str, holding: &Vec<String>) -> (r: Result<Store, Error>)
        ensures
            match (r, home_of(start@, text::texts(holding@))) {
                (Ok(store), Some(dir)) => store@ == paths::within(dir, DIR@),
                (Err(e), None) => e@ == (ErrorView::NoStore { start: start@ }),
                _ => false,
            },
    {
        let dirs = paths::ancestors(start);
        let ghost all = text::texts(dirs@);
        let ghost stores = text::texts(holding@);
        assert(all.skip(0) =~= all);
        for i in 0..dirs.len()
            invariant
                all == text::texts(dirs@),
                all == paths::ancestors_of(start@),
                stores == text::texts(holding@),
                nearest(all, stores) == nearest(all.skip(i as int), stores),
        {
            assert(all.skip(i as int)[0] == dirs@[i as int]@);
            assert(all.skip(i as int).skip(1) =~= all.skip(i + 1));
            if text::listed(holding, dirs[i].as_str()) {
                return Ok(Store::init(dirs[i].as_str()));
            }
        }
        Err(Error::NoStore { start: text::owned(start) })
    }

    /// The store in a directory.
    pub fn init(parent: &str) -> (r: Store)
        ensures
            r@ == paths::within(parent@, DIR@),
    {
        Store { dir: paths::join(parent, DIR) }
    }

    pub fn dir(&self) -> (r: &str)
        ensures
            r@ == self@,
    {
        self.dir.as_str()
    }

    pub fn tree_path(&self, slug: &str) -> (r: String)
        ensures
            r@ == paths::within(self@, tree_file(slug@)),
    {
        let mut name = text::owned(slug);
        name.append(TREE_SUFFIX);
        paths::join(self.dir.as_str(), name.as_str())
    }

    pub fn head_path(&self) -> (r: String)
        ensures
            r@ == paths::within(self@, HEAD@),
    {
        paths::join(self.dir.as_str(), HEAD)
    }

    pub fn grill_path(&self) -> (r: String)
        ensures
            r@ == paths::within(self@, GRILL@),
    {
        paths::join(self.dir.as_str(), GRILL)
    }

    /// The file that the lock of a tree is taken on. It is not the tree's own file:
    /// that one is replaced when it is written, and a lock on what it replaces
    /// keeps nobody out.
    pub fn lock_path(&self, slug: &str) -> (r: String)
        ensures
            r@ == paths::within(self@, lock_file(slug@)),
    {
        let mut name = text::owned(slug);
        name.append(LOCK_SUFFIX);
        paths::join(self.dir.as_str(), name.as_str())
    }
}

/// The nearest directory that holds a store is the one that is found, and none is
/// found only where none of them does.
pub proof fn nearest_store_is_found(start: Text, holding: Seq<Text>, i: int)
    requires
        0 <= i < paths::ancestors_of(start).len(),
        forall|j: int| 0 <= j < i ==> !holding.contains(#[trigger] paths::ancestors_of(start)[j]),
    ensures
        holding.contains(paths::ancestors_of(start)[i]) ==> home_of(start, holding) == Some(
            paths::ancestors_of(start)[i],
        ),
        home_of(start, holding) is None <==> forall|j: int|
            0 <= j < paths::ancestors_of(start).len() ==> !holding.contains(
                #[trigger] paths::ancestors_of(start)[j],
            ),
{
    let dirs = paths::ancestors_of(start);
    lemma_nearest(dirs, holding, i);
    if forall|j: int| 0 <= j < dirs.len() ==> !holding.contains(#[trigger] dirs[j]) {
        lemma_nearest(dirs, holding, dirs.len() as int);
    } else {
        let k = lemma_first_holding(dirs, holding, i);
        lemma_nearest(dirs, holding, k);
    }
}

proof fn lemma_nearest(dirs: Seq<Text>, holding: Seq<Text>, i: int)
    requires
        0 <= i <= dirs.len(),
        forall|j: int| 0 <= j < i ==> !holding.contains(#[trigger] dirs[j]),
    ensures
        nearest(dirs, holding) == nearest(dirs.skip(i), holding),
        i < dirs.len() && holding.contains(dirs[i]) ==> nearest(dirs, holding) == Some(dirs[i]),
        i == dirs.len() ==> nearest(dirs, holding) is None,
    decreases i,
{
    if i == 0 {
        assert(dirs.skip(0) =~= dirs);
    } else {
        lemma_nearest(dirs, holding, i - 1);
        assert(dirs.skip(i - 1)[0] == dirs[i - 1]);
        assert(dirs.skip(i - 1).skip(1) =~= dirs.skip(i));
    }
    if i < dirs.len() {
        assert(dirs.skip(i)[0] == dirs[i]);
    }
}

proof fn lemma_first_holding(dirs: Seq<Text>, holding: Seq<Text>, from: int) -> (k: int)
    requires
        0 <= from <= dirs.len(),
        forall|j: int| 0 <= j < from ==> !holding.contains(#[trigger] dirs[j]),
        exists|j: int| 0 <= j < dirs.len() && holding.contains(#[trigger] dirs[j]),
    ensures
        0 <= k < dirs.len(),
        holding.contains(dirs[k]),
        forall|j: int| 0 <= j < k ==> !holding.contains(#[trigger] dirs[j]),
    decreases dirs.len() - from,
{
    if holding.contains(dirs[from]) {
        from
    } else {
        lemma_first_holding(dirs, holding, from + 1)
    }
}

/// A directory that holds no store has that of the directory it is in.
pub proof fn store_is_that_of_the_directory_above(dir: Text, name: Text, holding: Seq<Text>)
    requires
        paths::is_plain(name),
        paths::trimmed(dir) == dir,
        !holding.contains(paths::within(dir, name)),
    ensures
        home_of(paths::within(dir, name), holding) == home_of(dir, holding),
{
    paths::directory_holds_what_is_in_it(dir, name);
    let dirs = paths::ancestors_of(paths::within(dir, name));
    assert(dirs.skip(1) =~= paths::ancestors_of(dir));
}

/// What stands before a name in its path.
spec fn front_of(dir: Text, name: Text) -> Text {
    if paths::is_rooted(name) {
        Seq::empty()
    } else if dir.len() == 0 || dir.last() == '/' {
        dir
    } else {
        dir + "/"@
    }
}

/// No two files of a store are the same: not those of two trees, nor that of a
/// tree and a lock, nor either of them and the one that names the active tree or
/// the one that holds the lease. Only a name that is a path from the root could
/// meet another tree's, and no slug is one.
pub proof fn files_do_not_collide(dir: Text, a: Text, b: Text)
    ensures
        paths::is_rooted(a) == paths::is_rooted(b) && paths::within(dir, tree_file(a)) == paths::within(dir, tree_file(b))
            ==> a == b,
        paths::within(dir, tree_file(a)) != paths::within(dir, lock_file(b)),
        paths::within(dir, tree_file(a)) != paths::within(dir, HEAD@),
        paths::within(dir, tree_file(a)) != paths::within(dir, GRILL@),
        paths::within(dir, lock_file(a)) != paths::within(dir, HEAD@),
        paths::within(dir, lock_file(a)) != paths::within(dir, GRILL@),
        paths::within(dir, HEAD@) != paths::within(dir, GRILL@),
{
    reveal_strlit(".json");
    reveal_strlit(".lock");
    reveal_strlit("HEAD");
    reveal_strlit("grill");
    let tree = paths::within(dir, tree_file(a));
    let other = paths::within(dir, tree_file(b));
    let lock = paths::within(dir, lock_file(b));
    let own_lock = paths::within(dir, lock_file(a));
    let top = front_of(dir, HEAD@);
    let x = front_of(dir, tree_file(a));
    let y = front_of(dir, tree_file(b));
    assert(tree =~= x + a + TREE_SUFFIX@);
    assert(other =~= y + b + TREE_SUFFIX@);
    assert(lock =~= front_of(dir, lock_file(b)) + b + LOCK_SUFFIX@);
    assert(own_lock =~= front_of(dir, lock_file(a)) + a + LOCK_SUFFIX@);
    assert(paths::within(dir, HEAD@) =~= top + HEAD@);
    assert(paths::within(dir, GRILL@) =~= top + GRILL@);
    assert(tree.last() == 'n');
    assert(lock.last() == 'k');
    assert(own_lock.last() == 'k');
    assert(paths::within(dir, HEAD@).last() == 'D');
    assert(paths::within(dir, GRILL@).last() == 'l');
    if paths::is_rooted(a) == paths::is_rooted(b) && tree == other {
        assert(x == y) by {
            assert(a.len() > 0 ==> tree_file(a)[0] == a[0]);
            assert(b.len() > 0 ==> tree_file(b)[0] == b[0]);
        }
        assert(a.len() == b.len());
        assert(a =~= tree.subrange(x.len() as int, (x.len() + a.len()) as int));
        assert(b =~= other.subrange(x.len() as int, (x.len() + b.len()) as int));
    }
}

// ---------------------------------------------------------------------------
// The active tree
// ---------------------------------------------------------------------------

/// What stands in the file that names the active tree.
pub open spec fn head_contents(slug: Text) -> Text {
    slug + "\n"@
}

/// The slug that the contents of that file name, or what is wrong with them; there
/// are none where there is no file.
pub open spec fn head_of(raw: Option<Text>) -> Result<Text, ErrorView> {
    match raw {
        None => Err(ErrorView::HeadUnset),
        Some(raw) => {
            let slug = text::trimmed(raw);
            if slugs::well_formed(slug) {
                Ok(slug)
            } else {
                Err(ErrorView::MalformedSlug { slug })
            }
        },
    }
}

impl Store {
    /// The slug of the active tree, from what was read of its file: `None` where
    /// there is no such file.
    pub fn head(raw: Option<&str>) -> (r: Result<String, Error>)
        ensures
            match r {
                Ok(slug) => head_of(text::optional_str(raw)) == Ok::<Text, ErrorView>(slug@),
                Err(e) => head_of(text::optional_str(raw)) == Err::<Text, ErrorView>(e@),
            },
    {
        match raw {
            None => Err(Error::HeadUnset),
            Some(raw) => {
                let slug = text::trim(raw);
                match slugs::validate(slug) {
                    Ok(()) => Ok(text::owned(slug)),
                    Err(e) => Err(e),
                }
            },
        }
    }

    /// What to write to make a tree the active one.
    pub fn set_head(&self, slug: &str) -> (r: Result<Write, Error>)
        ensures
            match r {
                Ok(write) => {
                    &&& slugs::well_formed(slug@)
                    &&& write.path@ == paths::within(self@, HEAD@)
                    &&& write.contents@ == head_contents(slug@)
                },
                Err(e) => !slugs::well_formed(slug@) && e@ == (ErrorView::MalformedSlug {
                    slug: slug@,
                }),
            },
    {
        match slugs::validate(slug) {
            Err(e) => Err(e),
            Ok(()) => {
                let mut contents = text::owned(slug);
                contents.append("\n");
                Ok(Write { path: self.head_path(), contents })
            },
        }
    }
}

/// What was written to make a tree the active one reads back as its slug.
pub proof fn active_tree_reads_back(slug: Text)
    requires
        slugs::well_formed(slug),
    ensures
        head_of(Some(head_contents(slug))) == Ok::<Text, ErrorView>(slug),
{
    reveal_strlit("\n");
    let raw = head_contents(slug);
    assert(slugs::is_lead(slug[0]));
    assert(raw[0] == slug[0]);
    assert(text::trimmed_start(raw) == raw);
    assert(raw.last() == '\n');
    assert(raw.drop_last() =~= slug);
    let last = slug[slug.len() - 1];
    assert(slugs::is_lead(last) || last == '-');
    assert(text::trimmed_end(slug) == slug);
}

// ---------------------------------------------------------------------------
// Trees
// ---------------------------------------------------------------------------

/// What was found where a tree's file should be.
#[derive(Debug)]
pub enum Found {
    Missing,
    /// It could not be read, and why.
    Unreadable(String),
    /// It holds no tree, and why.
    Malformed(String),
    Tree(Tree),
}

/// A tree that was asked for by its slug, or what is wrong. One that a later
/// version wrote is refused, lest it be written back in the shape of this one.
pub open spec fn loaded(dir: Text, slug: Text, found: Found) -> Result<TreeView, ErrorView> {
    if !slugs::well_formed(slug) {
        Err(ErrorView::MalformedSlug { slug })
    } else {
        let path = paths::within(dir, tree_file(slug));
        match found {
            Found::Missing => Err(ErrorView::UnknownTree { slug }),
            Found::Unreadable(why) => Err(ErrorView::Io { path, source: why@ }),
            Found::Malformed(why) => Err(ErrorView::Json { path, source: why@ }),
            Found::Tree(tree) => if tree@.version == model::VERSION {
                Ok(tree@)
            } else {
                Err(
                    ErrorView::UnsupportedVersion {
                        path,
                        found: tree@.version,
                        expected: model::VERSION,
                    },
                )
            },
        }
    }
}

/// Why a tree cannot be saved, if it cannot: its slug must name a file.
pub open spec fn save_refusal(tree: TreeView) -> Option<ErrorView> {
    if slugs::well_formed(tree.slug) {
        None
    } else {
        Some(ErrorView::MalformedSlug { slug: tree.slug })
    }
}

/// What refuses a new tree.
pub open spec fn creation_refusal(slug: Text, exists_already: bool) -> Option<ErrorView> {
    if !slugs::well_formed(slug) {
        Some(ErrorView::MalformedSlug { slug })
    } else if exists_already {
        Some(ErrorView::TreeExists { slug })
    } else {
        None
    }
}

impl Store {
    /// The tree of a slug, from what was found at its path.
    pub fn load(&self, slug: &str, found: Found) -> (r: Result<Tree, Error>)
        ensures
            match r {
                Ok(tree) => loaded(self@, slug@, found) == Ok::<TreeView, ErrorView>(tree@),
                Err(e) => loaded(self@, slug@, found) == Err::<TreeView, ErrorView>(e@),
            },
    {
        match slugs::validate(slug) {
            Err(e) => return Err(e),
            Ok(()) => {},
        }
        match found {
            Found::Missing => Err(Error::UnknownTree { slug: text::owned(slug) }),
            Found::Unreadable(why) => Err(Error::Io { path: self.tree_path(slug), source: why }),
            Found::Malformed(why) => Err(Error::Json { path: self.tree_path(slug), source: why }),
            Found::Tree(tree) => if tree.version == model::VERSION {
                Ok(tree)
            } else {
                Err(
                    Error::UnsupportedVersion {
                        path: self.tree_path(slug),
                        found: tree.version,
                        expected: model::VERSION,
                    },
                )
            },
        }
    }

    /// A new tree without heads, if there is none under its slug.
    pub fn create(slug: &str, intent: &str, exists_already: bool) -> (r: Result<Tree, Error>)
        ensures
            match r {
                Ok(tree) => {
                    &&& creation_refusal(slug@, exists_already) is None
                    &&& tree@ == TreeView::empty(slug@, intent@, tree@.created_at)
                    &&& tree@.created_at.is_whole()
                    &&& tree@.created_at.in_range()
                },
                Err(e) => creation_refusal(slug@, exists_already) == Some(e@),
            },
    {
        match slugs::validate(slug) {
            Err(e) => return Err(e),
            Ok(()) => {},
        }
        if exists_already {
            return Err(Error::TreeExists { slug: text::owned(slug) });
        }
        Ok(Tree::with_intent(text::owned(slug), text::owned(intent)))
    }

    /// Where a tree is to be written, if its slug can name a file.
    pub fn save(&self, tree: &Tree) -> (r: Result<String, Error>)
        ensures
            match r {
                Ok(path) => {
                    &&& save_refusal(tree@) is None
                    &&& path@ == paths::within(self@, tree_file(tree@.slug))
                },
                Err(e) => save_refusal(tree@) == Some(e@),
            },
    {
        match slugs::validate(tree.slug.as_str()) {
            Err(e) => Err(e),
            Ok(()) => Ok(self.tree_path(tree.slug.as_str())),
        }
    }
}

impl Store {
    /// Changes the tree of a slug, from what was found at its path. Hands back what
    /// `f` gives and the tree as `f` left it, which is what to save. Where the tree
    /// cannot be loaded `f` is not called; where `f` fails, or leaves a tree that
    /// cannot be saved, there is nothing to write.
    pub fn with_tree_mut<T, F: FnOnce(&mut Tree) -> Result<T, Error>>(
        &self,
        slug: &str,
        found: Found,
        f: F,
    ) -> (r: Result<(T, Tree), Error>)
        requires
            forall|tree: &mut Tree|
                loaded(self@, slug@, found) == Ok::<TreeView, ErrorView>((*tree)@)
                    ==> #[trigger] f.requires((tree,)),
        ensures
            match loaded(self@, slug@, found) {
                Err(refusal) => r matches Err(e) && e@ == refusal,
                Ok(before) => exists|tree: &mut Tree, out: Result<T, Error>|
                    {
                        &&& (*tree)@ == before
                        &&& #[trigger] f.ensures((tree,), out)
                        &&& match out {
                            Err(e) => r == Err::<(T, Tree), Error>(e),
                            Ok(value) => match save_refusal((*final(tree))@) {
                                Some(refusal) => r matches Err(e) && e@ == refusal,
                                None => r == Ok::<(T, Tree), Error>((value, *final(tree))),
                            },
                        }
                    },
            },
    {
        match self.load(slug, found) {
            Err(e) => Err(e),
            Ok(tree) => {
                let mut tree = tree;
                match f(&mut tree) {
                    Err(e) => Err(e),
                    Ok(value) => match self.save(&tree) {
                        Err(e) => Err(e),
                        Ok(_) => Ok((value, tree)),
                    },
                }
            },
        }
    }
}

/// A tree that was loaded, then changed in any way but for its version, and saved
/// is handed back as it was left when its file is found to hold it.
pub proof fn changed_tree_loads(dir: Text, slug: Text, before: Found, after: Tree)
    requires
        loaded(dir, slug, before) matches Ok(tree) && after@.version == tree.version,
        save_refusal(after@) is None,
    ensures
        loaded(dir, after@.slug, Found::Tree(after)) == Ok::<TreeView, ErrorView>(after@),
        loaded(dir, slug, Found::Tree(after)) == Ok::<TreeView, ErrorView>(after@),
{
}

/// A tree of this version that could be saved is handed back as it is when its
/// file is found to hold it.
pub proof fn saved_tree_loads(dir: Text, tree: Tree)
    requires
        save_refusal(tree@) is None,
        tree@.version == model::VERSION,
    ensures
        loaded(dir, tree@.slug, Found::Tree(tree)) == Ok::<TreeView, ErrorView>(tree@),
{
}

/// A tree that was created can be saved, and is accepted when it is loaded.
pub proof fn created_tree_loads(dir: Text, slug: Text, exists_already: bool, tree: Tree)
    requires
        creation_refusal(slug, exists_already) is None,
        tree@ == TreeView::empty(slug, tree@.intent, tree@.created_at),
    ensures
        save_refusal(tree@) is None,
        loaded(dir, slug, Found::Tree(tree)) == Ok::<TreeView, ErrorView>(tree@),
{
    saved_tree_loads(dir, tree);
}

// ---------------------------------------------------------------------------
// Listing
// ---------------------------------------------------------------------------

/// The trees whose files are among the given names.
pub open spec fn trees_among(names: Seq<Text>) -> Set<Text> {
    Set::new(|slug: Text| slugs::well_formed(slug) && names.contains(tree_file(slug)))
}

/// The slug that a file name holds, if it is that of a tree.
pub open spec fn slug_in(name: Text) -> Option<Text> {
    let n = name.len() - TREE_SUFFIX@.len();
    if n > 0 && name.skip(n) == TREE_SUFFIX@ && slugs::well_formed(name.take(n)) {
        Some(name.take(n))
    } else {
        None
    }
}

fn slug_of_file(name: &str) -> (r: Option<String>)
    ensures
        text::optional(r) == slug_in(name@),
{
    let count: usize = name.unicode_len();
    let size: usize = TREE_SUFFIX.unicode_len();
    if count <= size {
        return None;
    }
    let n: usize = count - size;
    let end = name.substring_char(n, count);
    let slug = name.substring_char(0, n);
    proof {
        assert(name@.subrange(n as int, count as int) =~= name@.skip(n as int));
        assert(name@.subrange(0, n as int) =~= name@.take(n as int));
    }
    if text::same(end, TREE_SUFFIX) && slugs::is_valid(slug) {
        Some(text::owned(slug))
    } else {
        None
    }
}

proof fn lemma_slug_in(name: Text, slug: Text)
    requires
        slugs::well_formed(slug),
    ensures
        name == tree_file(slug) <==> slug_in(name) == Some(slug),
{
    reveal_strlit(".json");
    let n = name.len() - TREE_SUFFIX@.len();
    if name == tree_file(slug) {
        assert(name.skip(n) =~= TREE_SUFFIX@);
        assert(name.take(n) =~= slug);
    }
    if slug_in(name) == Some(slug) {
        assert(name =~= name.take(n) + name.skip(n));
    }
}

/// The slugs of the trees whose files are among the given names, sorted. A file
/// that is no tree's is passed over.
pub fn trees(names: &Vec<String>) -> (r: Vec<String>)
    ensures
        text::texts(r@) == order::in_order(trees_among(text::texts(names@))),
{
    let ghost all = text::texts(names@);
    let mut out: Vec<String> = Vec::new();
    proof {
        order::by_text_is_strict();
        assert(text::texts(out@) =~= Seq::<Text>::empty());
        assert(text::texts(out@).to_set() =~= trees_among(all.take(0)));
        order::arranged_is(text::texts(out@), trees_among(all.take(0)), order::by_text());
    }
    for i in 0..names.len()
        invariant
            all == text::texts(names@),
            order::ascends(text::texts(out@), order::by_text()),
            text::texts(out@).to_set() == trees_among(all.take(i as int)),
            text::texts(out@) == order::in_order(trees_among(all.take(i as int))),
    {
        let ghost name = all[i as int];
        let ghost before = trees_among(all.take(i as int));
        let ghost after = trees_among(all.take(i + 1));
        let found = slug_of_file(names[i].as_str());
        proof {
            assert(name == names@[i as int]@);
            assert forall|slug: Text| #[trigger] after.contains(slug) <==> before.contains(slug)
                || slug_in(name) == Some(slug) by {
                assert(all.take(i + 1) =~= all.take(i as int).push(name));
                crate::cascade::lemma_contains_push(all.take(i as int), name, tree_file(slug));
                if slugs::well_formed(slug) {
                    lemma_slug_in(name, slug);
                }
            }
        }
        match found {
            Some(slug) => {
                assert(after =~= before.insert(slug@));
                order::insert_in_order(&mut out, slug);
            },
            None => {
                assert(after =~= before);
            },
        }
    }
    assert(all.take(names@.len() as int) =~= all);
    out
}

// ---------------------------------------------------------------------------
// Locks
// ---------------------------------------------------------------------------

/// How a try to take a lock went.
#[derive(Debug)]
pub enum Attempt {
    Taken,
    Busy,
    Failed(String),
}

/// What to do after a try.
#[derive(Debug)]
pub enum LockStep {
    Proceed,
    /// Wait a moment and try again.
    Retry,
    GiveUp(Error),
}

pub enum LockStepView {
    Proceed,
    Retry,
    GiveUp(ErrorView),
}

impl View for LockStep {
    type V = LockStepView;

    open spec fn view(&self) -> LockStepView {
        match *self {
            LockStep::Proceed => LockStepView::Proceed,
            LockStep::Retry => LockStepView::Retry,
            LockStep::GiveUp(e) => LockStepView::GiveUp(e@),
        }
    }
}

/// A lock that is held elsewhere is tried again until the time is up. Any other
/// failure is final.
pub open spec fn step_after(attempt: Attempt, waited: u64, timeout: u64, path: Text) -> LockStepView {
    match attempt {
        Attempt::Taken => LockStepView::Proceed,
        Attempt::Busy => if waited < timeout {
            LockStepView::Retry
        } else {
            LockStepView::GiveUp(ErrorView::LockTimeout { path })
        },
        Attempt::Failed(why) => LockStepView::GiveUp(ErrorView::Io { path, source: why@ }),
    }
}

/// What to do after a try to take the lock at `path`, `waited` milliseconds after
/// the first.
pub fn lock_step(attempt: Attempt, waited: u64, timeout: u64, path: &str) -> (r: LockStep)
    ensures
        r@ == step_after(attempt, waited, timeout, path@),
{
    match attempt {
        Attempt::Taken => LockStep::Proceed,
        Attempt::Busy => if waited < timeout {
            LockStep::Retry
        } else {
            LockStep::GiveUp(Error::LockTimeout { path: text::owned(path) })
        },
        Attempt::Failed(why) => LockStep::GiveUp(
            Error::Io { path: text::owned(path), source: why },
        ),
    }
}

} // verus!

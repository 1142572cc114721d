use vstd::prelude::*;
use crate::cli::InputFs;
use crate::deps::{copy_texts, texts};

verus! {

/// The extension of a path, as std reads it on the target platform.
pub uninterp spec fn extension_of(path: Seq<char>) -> Option<Seq<char>>;

/// Relies on std::path::Path::extension: the extension depends on the text of the path
/// alone, and a path given as text has a textual extension.
#[verifier::external_body]
fn path_extension(path: &String) -> (r: Option<String>)
    ensures
        r is Some <==> extension_of(path@) is Some,
        r is Some ==> r->Some_0@ == extension_of(path@)->Some_0,
{
    std::path::Path::new(path.as_str()).extension().and_then(|e| e.to_str()).map(|e| e.to_string())
}

/// Whether a path names a compiled module file: its extension is `mv`.
pub open spec fn is_move_bin(path: Seq<char>) -> bool {
    extension_of(path) == Some("mv"@)
}

/// Whether a path names a compiled module file.
fn has_move_ext(path: &String) -> (r: bool)
    ensures
        r == is_move_bin(path@),
{
    match path_extension(path) {
        Some(e) => e == String::from_str("mv"),
        None => false,
    }
}

/// Whether two paths are equal as std compares paths on the target platform: component
/// by component.
pub uninterp spec fn same_path(a: Seq<char>, b: Seq<char>) -> bool;

/// Relies on `==` of std::path::Path: the answer depends on the two texts alone.
#[verifier::external_body]
fn paths_equal(a: &String, b: &String) -> (r: bool)
    ensures
        r == same_path(a@, b@),
{
    std::path::Path::new(a.as_str()) == std::path::Path::new(b.as_str())
}

/// Whether path `a` comes no later than path `b` in std's order of paths, which compares
/// them component by component on the target platform.
pub uninterp spec fn path_le(a: Seq<char>, b: Seq<char>) -> bool;

/// Relies on `<=` of std::path::Path: the answer depends on the two texts alone.
#[verifier::external_body]
fn path_not_after(a: &String, b: &String) -> (r: bool)
    ensures
        r == path_le(a@, b@),
{
    std::path::Path::new(a.as_str()) <= std::path::Path::new(b.as_str())
}

/// Whether `s` holds a path equal to `p`.
pub open spec fn holds_path(s: Seq<Seq<char>>, p: Seq<char>) -> bool {
    exists|i: int| 0 <= i < s.len() && same_path(#[trigger] s[i], p)
}

proof fn lemma_holds_path_concat(a: Seq<Seq<char>>, b: Seq<Seq<char>>, p: Seq<char>)
    ensures
        holds_path(a + b, p) <==> holds_path(a, p) || holds_path(b, p),
{
    if holds_path(a + b, p) {
        let i = choose|i: int| 0 <= i < (a + b).len() && same_path(#[trigger] (a + b)[i], p);
        if i < a.len() {
            assert(a[i] == (a + b)[i]);
        } else {
            assert(b[i - a.len()] == (a + b)[i]);
        }
    }
    if holds_path(a, p) {
        let i = choose|i: int| 0 <= i < a.len() && same_path(#[trigger] a[i], p);
        assert((a + b)[i] == a[i]);
    }
    if holds_path(b, p) {
        let i = choose|i: int| 0 <= i < b.len() && same_path(#[trigger] b[i], p);
        assert((a + b)[a.len() + i] == b[i]);
    }
}

/// Whether `v` holds a path equal to `p`.
fn contains_path(v: &Vec<String>, p: &String) -> (r: bool)
    ensures
        r == holds_path(texts(v@), p@),
{
    let mut i: usize = 0;
    while i < v.len()
        invariant
            i <= v@.len(),
            forall|j: int| 0 <= j < i ==> !same_path(#[trigger] texts(v@)[j], p@),
        decreases v@.len() - i,
    {
        assert(texts(v@)[i as int] == v@[i as int]@);
        if paths_equal(&v[i], p) {
            return true;
        }
        i = i + 1;
    }
    false
}

/// `t`, sorted, with `x` added after every path that comes no later than it.
pub open spec fn insert_path(t: Seq<Seq<char>>, x: Seq<char>) -> Seq<Seq<char>>
    decreases t.len(),
{
    if t.len() == 0 {
        seq![x]
    } else if path_le(t.last(), x) {
        t.push(x)
    } else {
        insert_path(t.drop_last(), x).push(t.last())
    }
}

/// `s` sorted in std's order of paths; paths that compare equal keep their order.
pub open spec fn path_sorted(s: Seq<Seq<char>>) -> Seq<Seq<char>>
    decreases s.len(),
{
    if s.len() == 0 {
        seq![]
    } else {
        insert_path(path_sorted(s.drop_last()), s.last())
    }
}

/// `s` without each path equal to the last one kept before it.
pub open spec fn dedup_paths(s: Seq<Seq<char>>) -> Seq<Seq<char>>
    decreases s.len(),
{
    if s.len() == 0 {
        seq![]
    } else {
        let p = dedup_paths(s.drop_last());
        if p.len() > 0 && same_path(s.last(), p.last()) {
            p
        } else {
            p.push(s.last())
        }
    }
}

/// The module files among `files` that are not yet known, in their order.
pub open spec fn new_files(files: Seq<Seq<char>>, known: Seq<Seq<char>>) -> Seq<Seq<char>>
    decreases files.len(),
{
    if files.len() == 0 {
        seq![]
    } else {
        let p = new_files(files.drop_last(), known);
        if is_move_bin(files.last()) && !holds_path(known, files.last()) {
            p.push(files.last())
        } else {
            p
        }
    }
}

/// The abstract state of an offline search.
pub struct OfflineView {
    pub recursive: bool,
    pub follow_symlinks: bool,
    pub search_path: Seq<Seq<char>>,
    pub files_primary: Seq<Seq<char>>,
    pub files_secondary: Seq<Seq<char>>,
    pub files_exclude: Seq<Seq<char>>,
}

/// The files found in one directory.
pub struct DirListing {
    pub dir: String,
    /// Canonical paths of the directory's entries.
    pub files: Vec<String>,
}

/// Looks dependencies up on disk: files given one by one come first, then the module
/// files found in the search directories.
pub struct OfflineDependencySearch {
    recursive: bool,
    follow_symlinks: bool,
    search_path: Vec<String>,
    files_primary: Vec<String>,
    files_secondary: Vec<String>,
    files_exclude: Vec<String>,
}

impl View for OfflineDependencySearch {
    type V = OfflineView;

    closed spec fn view(&self) -> OfflineView {
        OfflineView {
            recursive: self.recursive,
            follow_symlinks: self.follow_symlinks,
            search_path: texts(self.search_path@),
            files_primary: texts(self.files_primary@),
            files_secondary: texts(self.files_secondary@),
            files_exclude: texts(self.files_exclude@),
        }
    }
}

/// Everything that an offline search already knows of, or must leave out.
pub open spec fn known_files(v: OfflineView) -> Seq<Seq<char>> {
    v.files_primary + v.files_secondary + v.files_exclude
}

/// The state after the module files of one directory listing were added.
pub open spec fn with_files(v: OfflineView, files: Seq<Seq<char>>) -> OfflineView {
    OfflineView {
        files_secondary: v.files_secondary + dedup_paths(path_sorted(new_files(files, known_files(v)))),
        ..v
    }
}

/// A directory listing as texts: the directory, then its entries.
pub open spec fn listing_view(l: DirListing) -> (Seq<char>, Seq<Seq<char>>) {
    (l.dir@, texts(l.files@))
}

pub open spec fn listings_view(ls: Seq<DirListing>) -> Seq<(Seq<char>, Seq<Seq<char>>)> {
    ls.map_values(|l: DirListing| listing_view(l))
}

/// The state after the subdirectories `subs` were searched in turn; one already in the
/// search path is passed over.
pub open spec fn with_subdirs(v: OfflineView, subs: Seq<(Seq<char>, Seq<Seq<char>>)>) -> OfflineView
    decreases subs.len(),
{
    if subs.len() == 0 {
        v
    } else {
        let p = with_subdirs(v, subs.drop_last());
        let d = subs.last().0;
        if holds_path(p.search_path, d) {
            p
        } else {
            with_files(OfflineView { search_path: p.search_path.push(d), ..p }, subs.last().1)
        }
    }
}

/// The state after the directory `path`, listed as `files`, was added as a search
/// directory, with its subdirectories `subs` where the search is recursive.
pub open spec fn with_dir(
    v: OfflineView,
    path: Seq<char>,
    files: Seq<Seq<char>>,
    subs: Seq<(Seq<char>, Seq<Seq<char>>)>,
) -> OfflineView {
    let base = OfflineView { search_path: v.search_path.push(path), ..with_files(v, files) };
    if v.recursive {
        with_subdirs(base, subs)
    } else {
        base
    }
}

/// The state after the module file `path` was added on its own.
pub open spec fn with_file(v: OfflineView, path: Seq<char>) -> OfflineView {
    if holds_path(v.files_exclude, path) {
        v
    } else {
        OfflineView { files_primary: v.files_primary.push(path), ..v }
    }
}

/// The state after the first `k` dependencies given on the command line were added:
/// module files on their own, anything else as a search directory listed by `listings`.
pub open spec fn with_dependencies(
    v: OfflineView,
    deps: Seq<Seq<char>>,
    listings: Seq<Seq<(Seq<char>, Seq<Seq<char>>)>>,
    k: nat,
) -> OfflineView
    decreases k,
{
    if k == 0 {
        v
    } else {
        let p = with_dependencies(v, deps, listings, (k - 1) as nat);
        let d = deps[k - 1];
        if is_move_bin(d) {
            with_file(p, d)
        } else {
            with_dir(p, d, listings[k - 1][0].1, listings[k - 1].drop_first())
        }
    }
}

impl OfflineDependencySearch {
    pub fn new(recursive: bool, follow_symlinks: bool) -> (r: OfflineDependencySearch)
        ensures
            r@ == (OfflineView {
                recursive,
                follow_symlinks,
                search_path: seq![],
                files_primary: seq![],
                files_secondary: seq![],
                files_exclude: seq![],
            }),
    {
        let r = OfflineDependencySearch {
            recursive,
            follow_symlinks,
            search_path: Vec::new(),
            files_primary: Vec::new(),
            files_secondary: Vec::new(),
            files_exclude: Vec::new(),
        };
        assert(texts(r.search_path@) =~= seq![]);
        assert(texts(r.files_primary@) =~= seq![]);
        assert(texts(r.files_secondary@) =~= seq![]);
        assert(texts(r.files_exclude@) =~= seq![]);
        r
    }

    /// A search set up from the command line: the input file is left out, dependencies
    /// that are module files are taken as they are, and the other dependencies are
    /// searched as directories, whose listings `listings[i]` gives for `opts.dependencies[i]`
    /// (the directory first, then its subdirectories where the search is recursive).
    pub fn new_from_opts(opts: &InputFs, listings: Vec<Vec<DirListing>>) -> (r: OfflineDependencySearch)
        requires
            listings@.len() == opts.dependencies@.len(),
            forall|i: int| 0 <= i < listings@.len() ==> (#[trigger] listings@[i])@.len() >= 1,
        ensures
            r@ == with_dependencies(
                OfflineView {
                    recursive: opts.search_recursive,
                    follow_symlinks: opts.follow_symlinks,
                    search_path: seq![],
                    files_primary: seq![],
                    files_secondary: seq![],
                    files_exclude: seq![opts.path@],
                },
                texts(opts.dependencies@),
                listings@.map_values(|l: Vec<DirListing>| listings_view(l@)),
                opts.dependencies@.len(),
            ),
    {
        let ghost lv = listings@.map_values(|l: Vec<DirListing>| listings_view(l@));
        let ghost dv = texts(opts.dependencies@);
        let mut deps = OfflineDependencySearch::new(opts.search_recursive, opts.follow_symlinks);
        let mut exclude: Vec<String> = Vec::new();
        exclude.push(opts.path.clone());
        deps.files_exclude = exclude;
        assert(texts(deps.files_exclude@) =~= seq![opts.path@]);
        let ghost start = deps@;
        let ghost all = listings@;
        let mut listings = listings;
        let n = opts.dependencies.len();
        let mut i: usize = 0;
        while i < n
            invariant
                n == opts.dependencies@.len(),
                n == all.len(),
                i <= n,
                listings@ == all.subrange(i as int, n as int),
                forall|k: int| 0 <= k < all.len() ==> (#[trigger] all[k])@.len() >= 1,
                lv == all.map_values(|l: Vec<DirListing>| listings_view(l@)),
                dv == texts(opts.dependencies@),
                deps@ == with_dependencies(start, dv, lv, i as nat),
            decreases n - i,
        {
            let mut listing = listings.remove(0);
            assert(listing == all[i as int]);
            assert(listings@ =~= all.subrange(i + 1, n as int));
            let d = opts.dependencies[i].clone();
            assert(d@ == dv[i as int]);
            if has_move_ext(&d) {
                deps.add_search_file(d);
            } else {
                let ghost lst = listing@;
                let root = listing.remove(0);
                assert(root == lst[0]);
                assert(listing@ =~= lst.drop_first());
                assert(lv[i as int] == listings_view(lst));
                assert(lv[i as int][0] == listing_view(root));
                assert(listings_view(listing@) =~= lv[i as int].drop_first());
                deps.add_search_dir(d, root.files, listing);
            }
            i = i + 1;
        }
        deps
    }

    /// Adds a search directory. `files` lists the directory; `subdirs` lists its
    /// subdirectories where the search is recursive, and is not read otherwise. A
    /// subdirectory already searched is not added twice.
    pub fn add_search_dir(&mut self, path: String, files: Vec<String>, subdirs: Vec<DirListing>)
        ensures
            final(self)@ == with_dir(old(self)@, path@, texts(files@), listings_view(subdirs@)),
    {
        self.add_files_from_dir(files);
        let ghost mid = self@;
        let ghost p = path@;
        self.search_path.push(path);
        assert(texts(self.search_path@) =~= mid.search_path.push(p));
        let ghost base = self@;
        let ghost subs = listings_view(subdirs@);
        if self.recursive {
            let n = subdirs.len();
            let mut i: usize = 0;
            assert(subs.subrange(0, 0) =~= Seq::<(Seq<char>, Seq<Seq<char>>)>::empty());
            while i < n
                invariant
                    n == subdirs@.len(),
                    i <= n,
                    subs == listings_view(subdirs@),
                    self@ == with_subdirs(base, subs.subrange(0, i as int)),
                decreases n - i,
            {
                let sub = &subdirs[i];
                assert(subs[i as int] == listing_view(*sub));
                let ghost pre = subs.subrange(0, i + 1);
                assert(pre.drop_last() =~= subs.subrange(0, i as int));
                assert(pre.last() == subs[i as int]);
                if !contains_path(&self.search_path, &sub.dir) {
                    let ghost before = self@;
                    let dir = sub.dir.clone();
                    self.search_path.push(dir);
                    assert(texts(self.search_path@) =~= before.search_path.push(sub.dir@));
                    let files = copy_texts(&sub.files);
                    self.add_files_from_dir(files);
                }
                i = i + 1;
            }
            assert(subs.subrange(0, n as int) =~= subs);
        }
    }

    /// Adds the module files among `files` that are not known yet, sorted and without
    /// repeats, after the files found before.
    fn add_files_from_dir(&mut self, files: Vec<String>)
        ensures
            final(self)@ == with_files(old(self)@, texts(files@)),
    {
        let ghost known = known_files(self@);
        let mut add_secondary: Vec<String> = Vec::new();
        let n = files.len();
        let ghost all = texts(files@);
        let mut i: usize = 0;
        while i < n
            invariant
                n == all.len(),
                i <= n,
                texts(files@) == all,
                files@.len() == n,
                known == known_files(self@),
                *self == *old(self),
                texts(add_secondary@) == new_files(all.subrange(0, i as int), known),
            decreases n - i,
        {
            let f = files[i].clone();
            assert(f@ == all[i as int]);
            let ghost pre = all.subrange(0, i + 1);
            assert(pre.drop_last() =~= all.subrange(0, i as int));
            assert(pre.last() == f@);
            let is_new = has_move_ext(&f) && !contains_path(&self.files_primary, &f) && !contains_path(
                &self.files_secondary,
                &f,
            ) && !contains_path(&self.files_exclude, &f);
            proof {
                let v = self@;
                lemma_holds_path_concat(v.files_primary, v.files_secondary, f@);
                lemma_holds_path_concat(v.files_primary + v.files_secondary, v.files_exclude, f@);
            }
            if is_new {
                let ghost prev = texts(add_secondary@);
                add_secondary.push(f);
                assert(texts(add_secondary@) =~= prev.push(pre.last()));
            }
            i = i + 1;
        }
        assert(all.subrange(0, n as int) =~= all);
        let sorted = sort_paths(add_secondary);
        let uniq = dedup_texts(sorted);
        let ghost before = self@;
        let mut k: usize = 0;
        let m = uniq.len();
        let ghost u = texts(uniq@);
        while k < m
            invariant
                m == u.len(),
                m == uniq@.len(),
                k <= m,
                texts(uniq@) == u,
                self@ == (OfflineView {
                    files_secondary: before.files_secondary + u.subrange(0, k as int),
                    ..before
                }),
            decreases m - k,
        {
            let s = uniq[k].clone();
            assert(s@ == u[k as int]);
            let ghost prev = self@;
            self.files_secondary.push(s);
            assert(texts(self.files_secondary@) =~= prev.files_secondary.push(u[k as int]));
            assert(u.subrange(0, k + 1) =~= u.subrange(0, k as int).push(u[k as int]));
            assert(before.files_secondary + u.subrange(0, k + 1) =~= prev.files_secondary.push(u[k as int]));
            k = k + 1;
        }
        assert(u.subrange(0, m as int) =~= u);
    }

    /// Adds a module file given on its own, unless it is the file left out.
    pub fn add_search_file(&mut self, path: String)
        ensures
            holds_path(old(self)@.files_exclude, path@) ==> final(self)@ == old(self)@,
            !holds_path(old(self)@.files_exclude, path@) ==> final(self)@ == (OfflineView {
                files_primary: old(self)@.files_primary.push(path@),
                ..old(self)@
            }),
    {
        if !contains_path(&self.files_exclude, &path) {
            let ghost before = self@;
            let ghost p = path@;
            self.files_primary.push(path);
            assert(texts(self.files_primary@) =~= before.files_primary.push(p));
        }
    }

    /// Every file found: those given on their own, then those found in directories.
    pub fn all_files(&self) -> (r: Vec<String>)
        ensures
            texts(r@) == self@.files_primary + self@.files_secondary,
    {
        let mut r = copy_texts(&self.files_primary);
        let s = &self.files_secondary;
        let ghost a = texts(r@);
        let ghost b = texts(s@);
        let n = s.len();
        let mut i: usize = 0;
        while i < n
            invariant
                n == b.len(),
                n == s@.len(),
                i <= n,
                texts(s@) == b,
                texts(r@) == a + b.subrange(0, i as int),
            decreases n - i,
        {
            let x = s[i].clone();
            assert(x@ == b[i as int]);
            let ghost prev = texts(r@);
            r.push(x);
            assert(texts(r@) =~= prev.push(b[i as int]));
            assert(a + b.subrange(0, i + 1) =~= prev.push(b[i as int]));
            i = i + 1;
        }
        assert(b.subrange(0, n as int) =~= b);
        r
    }

    /// Every file found, as `all_files` orders them.
    pub fn into_all_files(self) -> (r: Vec<String>)
        ensures
            texts(r@) == self@.files_primary + self@.files_secondary,
    {
        self.all_files()
    }

    /// Whether a file was found.
    pub fn has_file(&self, path: &String) -> (r: bool)
        ensures
            r == holds_path(self@.files_primary + self@.files_secondary, path@),
    {
        let all = self.all_files();
        contains_path(&all, path)
    }
}

/// `v` without each path equal to the last one kept before it.
fn dedup_texts(v: Vec<String>) -> (r: Vec<String>)
    ensures
        texts(r@) == dedup_paths(texts(v@)),
{
    let ghost all = texts(v@);
    let n = v.len();
    let mut r: Vec<String> = Vec::new();
    let mut last: Option<String> = None;
    let mut i: usize = 0;
    while i < n
        invariant
            n == all.len(),
            n == v@.len(),
            i <= n,
            texts(v@) == all,
            texts(r@) == dedup_paths(all.subrange(0, i as int)),
            texts(r@).len() == 0 <==> last is None,
            last is Some ==> last->Some_0@ == texts(r@).last(),
        decreases n - i,
    {
        let x = v[i].clone();
        assert(x@ == all[i as int]);
        let ghost pre = all.subrange(0, i + 1);
        assert(pre.drop_last() =~= all.subrange(0, i as int));
        assert(pre.last() == x@);
        let keep = match &last {
            None => true,
            Some(l) => !paths_equal(&x, l),
        };
        let ghost prev = texts(r@);
        if keep {
            r.push(x.clone());
            assert(texts(r@) =~= prev.push(x@));
            last = Some(x);
        }
        i = i + 1;
    }
    assert(all.subrange(0, n as int) =~= all);
    r
}

/// `v` sorted in std's order of paths (see `path_sorted`).
fn sort_paths(v: Vec<String>) -> (r: Vec<String>)
    ensures
        texts(r@) == path_sorted(texts(v@)),
{
    let ghost all = texts(v@);
    let n = v.len();
    let mut r: Vec<String> = Vec::new();
    let mut i: usize = 0;
    assert(all.subrange(0, 0) =~= Seq::<Seq<char>>::empty());
    while i < n
        invariant
            n == all.len(),
            n == v@.len(),
            i <= n,
            texts(v@) == all,
            texts(r@) == path_sorted(all.subrange(0, i as int)),
        decreases n - i,
    {
        let x = v[i].clone();
        assert(x@ == all[i as int]);
        let ghost pre = all.subrange(0, i + 1);
        assert(pre.drop_last() =~= all.subrange(0, i as int));
        assert(pre.last() == x@);
        let ghost rr = texts(r@);
        let mut j = r.len();
        assert(rr.subrange(0, j as int) =~= rr);
        assert(insert_path(rr, x@) + rr.subrange(j as int, j as int) =~= insert_path(rr, x@));
        while j > 0
            invariant
                rr == texts(r@),
                j <= rr.len(),
                insert_path(rr, x@) == insert_path(rr.subrange(0, j as int), x@) + rr.subrange(
                    j as int,
                    rr.len() as int,
                ),
            ensures
                j <= rr.len(),
                insert_path(rr, x@) == insert_path(rr.subrange(0, j as int), x@) + rr.subrange(
                    j as int,
                    rr.len() as int,
                ),
                j > 0 ==> path_le(rr[j - 1], x@),
            decreases j,
        {
            assert(rr[j - 1] == r@[j - 1]@);
            if path_not_after(&r[j - 1], &x) {
                break;
            }
            let ghost p = rr.subrange(0, j as int);
            assert(p.drop_last() =~= rr.subrange(0, j - 1));
            assert(p.last() == rr[j - 1]);
            assert(insert_path(rr.subrange(0, j - 1), x@).push(rr[j - 1]) + rr.subrange(
                j as int,
                rr.len() as int,
            ) =~= insert_path(rr.subrange(0, j - 1), x@) + rr.subrange(j - 1, rr.len() as int));
            j = j - 1;
        }
        proof {
            let p = rr.subrange(0, j as int);
            if j > 0 {
                assert(p.last() == rr[j - 1]);
                assert(insert_path(p, x@) == p.push(x@));
            } else {
                assert(insert_path(p, x@) == seq![x@]);
            }
            assert(insert_path(rr, x@) =~= rr.insert(j as int, x@));
        }
        let ghost before = r@;
        r.insert(j, x);
        assert(texts(r@) =~= rr.insert(j as int, x@)) by {
            assert forall|k: int| 0 <= k < r@.len() implies texts(r@)[k] == rr.insert(j as int, x@)[k] by {
                if k < j {
                    assert(r@[k] == before[k]);
                } else if k > j {
                    assert(r@[k] == before[k - 1]);
                }
            }
        }
        i = i + 1;
    }
    assert(all.subrange(0, n as int) =~= all);
    r
}

} // verus!

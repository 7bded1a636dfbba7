//! Paths as sequences of components, and the path arithmetic Grove does:
//! common parent folders, relative paths, and Grove's own folder layout.
//!
//! Splitting a path into components and joining components back into a path
//! are the standard library's; they are named here (`components_of`,
//! `path_from_parts`, ...) and everything Grove decides on top of them is
//! proved over those names.

use std::path::{Component, Path, PathBuf};
use vstd::prelude::*;
use crate::names::{chapter_folder, chapter_folder_name};

verus! {

/// The kind of one path component, as `std::path::Component` tells them apart.
#[derive(Clone, Copy, PartialEq, Eq, Structural, Debug)]
pub enum PartKind {
    Prefix,
    Root,
    Cur,
    Parent,
    Normal,
}

/// One path component: its kind and its text (`Component::as_os_str`).
#[derive(Debug)]
pub struct PathPart {
    pub kind: PartKind,
    pub text: String,
}

/// A path component as a plain value.
pub type PartView = (PartKind, Seq<char>);

impl View for PathPart {
    type V = PartView;

    open spec fn view(&self) -> PartView {
        (self.kind, self.text@)
    }
}

impl PathPart {
    /// A copy of this component.
    pub fn duplicate(&self) -> (r: PathPart)
        ensures
            r@ == self@,
    {
        PathPart { kind: self.kind, text: self.text.clone() }
    }
}

/// The plain values of a list of components.
pub open spec fn parts_view(v: Seq<PathPart>) -> Seq<PartView> {
    v.map_values(|p: PathPart| p@)
}

/// The components of a path, as `Path::components` yields them.
pub uninterp spec fn components_of(path: Seq<char>) -> Seq<PartView>;

/// The path that `PathBuf` builds by pushing each component's text in turn.
pub uninterp spec fn path_from_parts(parts: Seq<PartView>) -> Seq<char>;

/// `Path::parent`: the path without its final component, if there is one.
pub uninterp spec fn parent_of(path: Seq<char>) -> Option<Seq<char>>;

/// `Path::join`: `child` appended to `base`.
pub uninterp spec fn joined(base: Seq<char>, child: Seq<char>) -> Seq<char>;

/// `Path::strip_prefix`: what remains of `path` after `base`.
pub uninterp spec fn stripped_of(path: Seq<char>, base: Seq<char>) -> Option<Seq<char>>;

/// `Path::with_extension`: `path` with its extension replaced by `ext`.
pub uninterp spec fn with_extension_of(path: Seq<char>, ext: Seq<char>) -> Seq<char>;

/// `Path`'s `==`: whether std counts two paths as the same path.
pub uninterp spec fn same_path(a: Seq<char>, b: Seq<char>) -> bool;

/// `Component`'s `==` on two components: whether std counts them as the same
/// component (a drive prefix is compared by its parsed form).
pub uninterp spec fn components_match(a: PartView, b: PartView) -> bool;

/// Trusted: `Path::components` splits `path` into its components; each is
/// returned with its kind and its text, and the list is a function of `path`
/// alone (under the path rules of the platform the library is built for).
/// Which list that is, is not stated.
#[verifier::external_body]
pub(crate) fn path_parts(path: &str) -> (r: Vec<PathPart>)
    ensures
        parts_view(r@) == components_of(path@),
{
    Path::new(path).components().map(|c| PathPart {
        kind: match c {
            Component::Prefix(_) => PartKind::Prefix,
            Component::RootDir => PartKind::Root,
            Component::CurDir => PartKind::Cur,
            Component::ParentDir => PartKind::Parent,
            Component::Normal(_) => PartKind::Normal,
        },
        text: c.as_os_str().to_string_lossy().into_owned(),
    }).collect()
}

/// Trusted: collecting the components' texts into a `PathBuf` (pushing each in
/// turn) gives a path that is a function of the components alone. Which path
/// that is, is not stated.
#[verifier::external_body]
pub(crate) fn parts_to_path(parts: &[PathPart]) -> (r: String)
    ensures
        r@ == path_from_parts(parts_view(parts@)),
{
    parts.iter().map(|p| p.text.as_str()).collect::<PathBuf>().to_string_lossy().into_owned()
}

/// Trusted: `Path::parent` returns `None` or a path; which one is a function of
/// `path` alone. Which path that is, is not stated.
#[verifier::external_body]
pub(crate) fn path_parent(path: &str) -> (r: Option<String>)
    ensures
        r is Some <==> parent_of(path@) is Some,
        r is Some ==> r->0@ == parent_of(path@)->0,
{
    Path::new(path).parent().map(|p| p.to_string_lossy().into_owned())
}

/// Trusted: `Path::join` appends `child` to `base`; the result is a function
/// of the two alone. Which path that is, is not stated.
#[verifier::external_body]
pub(crate) fn join_path(base: &str, child: &str) -> (r: String)
    ensures
        r@ == joined(base@, child@),
{
    Path::new(base).join(child).to_string_lossy().into_owned()
}

/// Trusted: `Path::strip_prefix` succeeds exactly when `base` is a prefix of
/// `path` in the sense of `Path::starts_with`: whole components, compared
/// with `Component`'s `==`. What it returns is a function of the two paths
/// alone, and joined onto `base` it is the same path as `path` (as its
/// documentation says).
#[verifier::external_body]
pub(crate) fn strip_path_prefix(path: &str, base: &str) -> (r: Option<String>)
    ensures
        r is Some <==> stripped_of(path@, base@) is Some,
        r is Some <==> match_upto(components_of(base@), components_of(path@), components_of(base@).len()),
        r is Some ==> same_path(joined(base@, r->0@), path@),
        r is Some ==> r->0@ == stripped_of(path@, base@)->0,
{
    Path::new(path).strip_prefix(base).ok().map(|p| p.to_string_lossy().into_owned())
}

/// Trusted: `Path::with_extension` gives a path that is a function of `path`
/// and `ext` alone. Which path that is, is not stated. It panics when `ext`
/// holds a path separator, so such extensions are not accepted.
#[verifier::external_body]
pub(crate) fn path_with_extension(path: &str, ext: &str) -> (r: String)
    requires
        forall|i: int| 0 <= i < ext@.len() ==> ext@[i] != '/' && ext@[i] != '\\',
    ensures
        r@ == with_extension_of(path@, ext@),
{
    Path::new(path).with_extension(ext).to_string_lossy().into_owned()
}

/// Trusted: compares component `k` of `a` with component `k` of `b` using
/// `Component`'s `==`; the answer is a function of the two components alone.
#[verifier::external_body]
fn component_matches_at(a: &str, b: &str, k: usize) -> (r: bool)
    requires
        k < components_of(a@).len(),
        k < components_of(b@).len(),
    ensures
        r == components_match(components_of(a@)[k as int], components_of(b@)[k as int]),
{
    Path::new(a).components().nth(k) == Path::new(b).components().nth(k)
}

/// How many leading components `a` and `b` share, comparing them as std does.
pub open spec fn match_len(a: Seq<PartView>, b: Seq<PartView>) -> nat
    decreases a.len(),
{
    if a.len() == 0 || b.len() == 0 || !components_match(a[0], b[0]) {
        0
    } else {
        1 + match_len(a.drop_first(), b.drop_first())
    }
}

/// The leading components of `a` that `b` shares.
pub open spec fn lcp(a: Seq<PartView>, b: Seq<PartView>) -> Seq<PartView> {
    a.take(match_len(a, b) as int)
}

/// The components all the lists share, narrowed from the first one onwards.
pub open spec fn common_of(ls: Seq<Seq<PartView>>) -> Seq<PartView>
    decreases ls.len(),
{
    if ls.len() == 0 {
        Seq::empty()
    } else if ls.len() == 1 {
        ls[0]
    } else {
        lcp(common_of(ls.drop_last()), ls.last())
    }
}

proof fn lemma_match_len(a: Seq<PartView>, b: Seq<PartView>)
    ensures
        match_len(a, b) <= a.len(),
        match_len(a, b) <= b.len(),
        forall|i: int| 0 <= i < match_len(a, b) ==> components_match(#[trigger] a[i], b[i]),
        match_len(a, b) < a.len() && match_len(a, b) < b.len() ==> !components_match(
            a[match_len(a, b) as int],
            b[match_len(a, b) as int],
        ),
    decreases a.len(),
{
    if a.len() == 0 || b.len() == 0 || !components_match(a[0], b[0]) {
    } else {
        lemma_match_len(a.drop_first(), b.drop_first());
        let m = match_len(a, b);
        assert forall|i: int| 0 <= i < m implies components_match(#[trigger] a[i], b[i]) by {
            if i > 0 {
                assert(a.drop_first()[i - 1] == a[i]);
                assert(b.drop_first()[i - 1] == b[i]);
            }
        }
        if m < a.len() && m < b.len() {
            assert(a.drop_first()[m - 1] == a[m as int]);
            assert(b.drop_first()[m - 1] == b[m as int]);
        }
    }
}

/// Whether the first `n` components of `a` and `b` match one by one.
pub open spec fn match_upto(a: Seq<PartView>, b: Seq<PartView>, n: nat) -> bool {
    &&& n <= a.len()
    &&& n <= b.len()
    &&& forall|k: int| 0 <= k < n ==> components_match(#[trigger] a[k], b[k])
}

/// Law: the folder Grove finds for a non-empty list of component lists is the
/// first list's first `c` components, every other list has at least `c`
/// components and its first `c` match those one by one, and it cannot be
/// extended: when the first list is longer, some other list ends at `c` or
/// does not match there.
pub proof fn lemma_common_prefix(ls: Seq<Seq<PartView>>)
    requires
        ls.len() > 0,
    ensures
        common_of(ls).len() <= ls[0].len(),
        common_of(ls) == ls[0].take(common_of(ls).len() as int),
        forall|i: int| 0 < i < ls.len() ==> match_upto(ls[0], #[trigger] ls[i], common_of(ls).len()),
        common_of(ls).len() < ls[0].len() ==> exists|i: int|
            0 < i < ls.len() && (common_of(ls).len() == (#[trigger] ls[i]).len() || !components_match(
                ls[0][common_of(ls).len() as int],
                ls[i][common_of(ls).len() as int],
            )),
    decreases ls.len(),
{
    if ls.len() == 1 {
        assert(ls[0].take(ls[0].len() as int) =~= ls[0]);
    } else {
        let init = ls.drop_last();
        lemma_common_prefix(init);
        let c0 = common_of(init);
        let last = ls.last();
        lemma_match_len(c0, last);
        let m = match_len(c0, last);
        let c = common_of(ls);
        assert(c == c0.take(m as int));
        assert(c =~= ls[0].take(m as int));
        assert(init[0] == ls[0]);
        assert forall|i: int| 0 < i < ls.len() implies match_upto(ls[0], #[trigger] ls[i], c.len()) by {
            if i == ls.len() - 1 {
                assert forall|k: int| 0 <= k < c.len() implies components_match(#[trigger] ls[0][k], ls[i][k]) by {
                    assert(c0[k] == ls[0][k]);
                    assert(components_match(c0[k], last[k]));
                }
            } else {
                assert(init[i] == ls[i]);
                assert(match_upto(init[0], init[i], c0.len()));
                assert forall|k: int| 0 <= k < c.len() implies components_match(#[trigger] ls[0][k], ls[i][k]) by {
                    assert(components_match(init[0][k], init[i][k]));
                }
            }
        }
        if c.len() < ls[0].len() {
            if m < c0.len() {
                assert(c0[m as int] == ls[0][m as int]);
                assert(0 < ls.len() - 1 && (c.len() == ls[ls.len() - 1].len() || !components_match(
                    ls[0][c.len() as int],
                    ls[ls.len() - 1][c.len() as int],
                )));
            } else {
                let i = choose|i: int|
                    0 < i < init.len() && (c0.len() == (#[trigger] init[i]).len() || !components_match(
                        init[0][c0.len() as int],
                        init[i][c0.len() as int],
                    ));
                assert(init[i] == ls[i]);
            }
        }
    }
}

fn take_parts(a: &[PathPart], n: usize) -> (r: Vec<PathPart>)
    requires
        n <= a.len(),
    ensures
        parts_view(r@) == parts_view(a@).take(n as int),
{
    let mut r: Vec<PathPart> = Vec::new();
    let mut k: usize = 0;
    while k < n
        invariant
            k <= n <= a.len(),
            parts_view(r@) == parts_view(a@).take(k as int),
        decreases n - k,
    {
        let d = a[k].duplicate();
        let ghost before = r@;
        r.push(d);
        proof {
            assert(parts_view(r@) =~= parts_view(before).push(d@));
            assert(parts_view(a@).take(k + 1) =~= parts_view(a@).take(k as int).push(parts_view(a@)[k as int]));
        }
        k = k + 1;
    }
    r
}

/// The folder Grove uses for a tracked path: its parent folder, or the path
/// itself when it has no non-empty parent.
pub open spec fn parent_or_self(path: Seq<char>) -> Seq<char> {
    match parent_of(path) {
        Some(q) => if q.len() > 0 {
            q
        } else {
            path
        },
        None => path,
    }
}

/// The folder that all tracked paths share: the components their parent
/// folders have in common, narrowed from the first onwards (empty for no paths).
pub open spec fn common_prefix_path(paths: Seq<Seq<char>>) -> Seq<char> {
    if paths.len() == 0 {
        Seq::empty()
    } else {
        path_from_parts(common_of(paths.map_values(|p: Seq<char>| components_of(parent_or_self(p)))))
    }
}

fn parent_or_self_of(path: &str) -> (r: String)
    ensures
        r@ == parent_or_self(path@),
{
    match path_parent(path) {
        Some(q) => {
            if q.unicode_len() > 0 {
                q
            } else {
                String::from_str(path)
            }
        },
        None => String::from_str(path),
    }
}

/// How many of the first `len` components of `a` match those of `b`, one by one.
fn shared_len(a: &str, len: usize, b: &str) -> (m: usize)
    requires
        len <= components_of(a@).len(),
    ensures
        m == match_len(components_of(a@).take(len as int), components_of(b@)),
{
    let ghost av = components_of(a@).take(len as int);
    let ghost bv = components_of(b@);
    let bp = path_parts(b);
    let blen = bp.len();
    assert(parts_view(bp@).len() == bp.len());
    assert(av.skip(0) =~= av);
    assert(bv.skip(0) =~= bv);
    let mut i: usize = 0;
    while i < len && i < blen && component_matches_at(a, b, i)
        invariant
            i <= len,
            len <= components_of(a@).len(),
            av == components_of(a@).take(len as int),
            bv == components_of(b@),
            blen == bv.len(),
            i <= blen,
            match_len(av, bv) == i + match_len(av.skip(i as int), bv.skip(i as int)),
        decreases len - i,
    {
        assert(av.skip(i as int)[0] == av[i as int]);
        assert(bv.skip(i as int)[0] == bv[i as int]);
        assert(av.skip(i as int).drop_first() =~= av.skip(i + 1));
        assert(bv.skip(i as int).drop_first() =~= bv.skip(i + 1));
        i = i + 1;
    }
    if i < len && i < blen {
        assert(av.skip(i as int)[0] == av[i as int]);
        assert(bv.skip(i as int)[0] == bv[i as int]);
    } else if i >= len {
        assert(av.skip(i as int).len() == 0);
    } else {
        assert(bv.skip(i as int).len() == 0);
    }
    i
}

/// The deepest folder that holds every tracked path's parent folder; labyrinth
/// snapshots store paths relative to it.
pub fn get_common_prefix(paths: &[String]) -> (r: String)
    ensures
        r@ == common_prefix_path(paths@.map_values(|s: String| s@)),
{
    let ghost pv = paths@.map_values(|s: String| s@);
    let ghost ls = pv.map_values(|p: Seq<char>| components_of(parent_or_self(p)));
    if paths.len() == 0 {
        return String::new();
    }
    let first = parent_or_self_of(paths[0].as_str());
    let fparts = path_parts(first.as_str());
    let mut len: usize = fparts.len();
    proof {
        assert(ls[0] == components_of(first@));
        assert(ls.take(1) =~= seq![ls[0]]);
        assert(common_of(ls.take(1)) == ls[0]);
        assert(components_of(first@).take(len as int) =~= components_of(first@));
    }
    let mut i: usize = 1;
    while i < paths.len()
        invariant
            1 <= i <= paths.len(),
            pv == paths@.map_values(|s: String| s@),
            ls == pv.map_values(|p: Seq<char>| components_of(parent_or_self(p))),
            ls[0] == components_of(first@),
            parts_view(fparts@) == components_of(first@),
            len <= fparts.len(),
            common_of(ls.take(i as int)) == components_of(first@).take(len as int),
        decreases paths.len() - i,
    {
        let q = parent_or_self_of(paths[i].as_str());
        let m = shared_len(first.as_str(), len, q.as_str());
        proof {
            assert(ls[i as int] == components_of(q@));
            assert(ls.take(i + 1).drop_last() =~= ls.take(i as int));
            assert(ls.take(i + 1).last() == ls[i as int]);
            lemma_match_len(components_of(first@).take(len as int), components_of(q@));
            assert(components_of(first@).take(len as int).take(m as int) =~= components_of(first@).take(
                m as int,
            ));
        }
        len = m;
        i = i + 1;
    }
    assert(ls.take(paths.len() as int) =~= ls);
    let common = take_parts(&fparts, len);
    parts_to_path(&common)
}

/// Whether a component is a drive prefix or the root.
pub open spec fn is_anchor(p: PartView) -> bool {
    p.0 == PartKind::Prefix || p.0 == PartKind::Root
}

/// The components without the drive prefix and the root.
pub open spec fn unanchored(c: Seq<PartView>) -> Seq<PartView>
    decreases c.len(),
{
    if c.len() == 0 {
        c
    } else if is_anchor(c.last()) {
        unanchored(c.drop_last())
    } else {
        unanchored(c.drop_last()).push(c.last())
    }
}

proof fn lemma_unanchored_has_no_anchor(c: Seq<PartView>)
    ensures
        forall|i: int| 0 <= i < unanchored(c).len() ==> !is_anchor(#[trigger] unanchored(c)[i]),
    decreases c.len(),
{
    if c.len() > 0 {
        lemma_unanchored_has_no_anchor(c.drop_last());
        let u = unanchored(c.drop_last());
        if !is_anchor(c.last()) {
            assert forall|i: int| 0 <= i < u.push(c.last()).len() implies !is_anchor(
                #[trigger] u.push(c.last())[i],
            ) by {
                if i < u.len() {
                    assert(u.push(c.last())[i] == u[i]);
                }
            }
        }
    }
}

/// `path` with its drive prefix and root removed, which makes it relative.
pub fn strip_absolute_prefix(path: &str) -> (r: String)
    ensures
        r@ == path_from_parts(unanchored(components_of(path@))),
{
    let parts = path_parts(path);
    let ghost c = parts_view(parts@);
    let mut kept: Vec<PathPart> = Vec::new();
    let mut i: usize = 0;
    while i < parts.len()
        invariant
            i <= parts.len(),
            c == parts_view(parts@),
            parts_view(kept@) == unanchored(c.take(i as int)),
        decreases parts.len() - i,
    {
        assert(c.take(i + 1).drop_last() =~= c.take(i as int));
        assert(c.take(i + 1).last() == c[i as int]);
        if parts[i].kind != PartKind::Prefix && parts[i].kind != PartKind::Root {
            kept.push(parts[i].duplicate());
            assert(parts_view(kept@) =~= unanchored(c.take(i as int)).push(c[i as int]));
        }
        i = i + 1;
    }
    assert(c.take(parts.len() as int) =~= c);
    parts_to_path(&kept)
}

/// Law: a path with its anchor stripped keeps none of the drive prefix or root
/// components, and keeps every other component in order.
pub proof fn lemma_unanchored(c: Seq<PartView>)
    ensures
        forall|i: int| 0 <= i < unanchored(c).len() ==> !is_anchor(#[trigger] unanchored(c)[i]),
        (forall|i: int| 0 <= i < c.len() ==> !is_anchor(#[trigger] c[i])) ==> unanchored(c) == c,
    decreases c.len(),
{
    lemma_unanchored_has_no_anchor(c);
    if c.len() > 0 {
        lemma_unanchored(c.drop_last());
        if forall|i: int| 0 <= i < c.len() ==> !is_anchor(#[trigger] c[i]) {
            assert forall|i: int| 0 <= i < c.drop_last().len() implies !is_anchor(
                #[trigger] c.drop_last()[i],
            ) by {
                assert(c.drop_last()[i] == c[i]);
            }
            assert(!is_anchor(c[c.len() - 1]));
            assert(c.drop_last().push(c.last()) =~= c);
        }
    }
}

/// Where `path` goes inside a labyrinth snapshot: relative to `prefix`, or,
/// when `prefix` is empty or is not a prefix of `path`, with only its drive
/// and root removed.
pub open spec fn relative_path(path: Seq<char>, prefix: Seq<char>) -> Seq<char> {
    if prefix.len() == 0 {
        path_from_parts(unanchored(components_of(path)))
    } else {
        match stripped_of(path, prefix) {
            Some(r) => r,
            None => path_from_parts(unanchored(components_of(path))),
        }
    }
}

/// `path` relative to `prefix`, falling back to stripping only the absolute
/// root. When `prefix` is not empty, `path` is stripped exactly when its
/// leading components are `prefix`'s, and then joining the result back onto
/// `prefix` gives the same path as `path`.
pub fn relative_to_prefix(path: &str, prefix: &str) -> (r: String)
    ensures
        r@ == relative_path(path@, prefix@),
        prefix@.len() > 0 && stripped_of(path@, prefix@) is Some ==> same_path(joined(prefix@, r@), path@),
        prefix@.len() > 0 ==> (stripped_of(path@, prefix@) is Some <==> match_upto(
            components_of(prefix@),
            components_of(path@),
            components_of(prefix@).len(),
        )),
{
    if prefix.is_empty() {
        strip_absolute_prefix(path)
    } else {
        match strip_path_prefix(path, prefix) {
            Some(rel) => rel,
            None => strip_absolute_prefix(path),
        }
    }
}


/// Grove's own folder in the home folder.
pub open spec fn grove_dir(home: Seq<char>) -> Seq<char> {
    joined(home, ".grove"@)
}

/// The folder that holds every project.
pub open spec fn projects_root(home: Seq<char>) -> Seq<char> {
    joined(grove_dir(home), "Grove Root"@)
}

/// The folder of project `name`.
pub open spec fn project_dir(home: Seq<char>, name: Seq<char>) -> Seq<char> {
    joined(projects_root(home), name)
}

/// `~/.grove`.
pub fn compute_grove_dir(home: &str) -> (r: String)
    ensures
        r@ == grove_dir(home@),
{
    join_path(home, ".grove")
}

/// `~/.grove/.grove_config.json`, which remembers the last opened project.
pub fn get_config_path(home: &str) -> (r: String)
    ensures
        r@ == joined(grove_dir(home@), ".grove_config.json"@),
{
    let g = compute_grove_dir(home);
    join_path(g.as_str(), ".grove_config.json")
}

/// `~/.grove/Grove Root`.
pub fn compute_projects_root(home: &str) -> (r: String)
    ensures
        r@ == projects_root(home@),
{
    let g = compute_grove_dir(home);
    join_path(g.as_str(), "Grove Root")
}

/// The folder of project `name`.
pub fn compute_project_dir(home: &str, name: &str) -> (r: String)
    ensures
        r@ == project_dir(home@, name@),
{
    let root = compute_projects_root(home);
    join_path(root.as_str(), name)
}

/// The metadata folder of a project's snapshots from before it had chapters.
pub fn compute_location_data_dir(home: &str, project_name: &str) -> (r: String)
    ensures
        r@ == joined(project_dir(home@, project_name@), ".location_data"@),
{
    let p = compute_project_dir(home, project_name);
    join_path(p.as_str(), ".location_data")
}

/// The folder of chapter `chapter` of a project.
pub fn compute_chapter_dir(home: &str, project_name: &str, chapter: usize) -> (r: String)
    ensures
        r@ == joined(project_dir(home@, project_name@), chapter_folder(chapter as nat)),
{
    let p = compute_project_dir(home, project_name);
    let c = chapter_folder_name(chapter);
    join_path(p.as_str(), c.as_str())
}

/// The settings file of a project.
pub fn get_project_config_path(home: &str, project_name: &str) -> (r: String)
    ensures
        r@ == joined(project_dir(home@, project_name@), ".grove_project.json"@),
{
    let p = compute_project_dir(home, project_name);
    join_path(p.as_str(), ".grove_project.json")
}

} // verus!

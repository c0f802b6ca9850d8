//! Breadth-expanding resolution of a case-insensitive target path
//! against real directory listings.
//!
//! Given a root and a target path, the search walks the tree
//! component by component: at each level it keeps every confirmed
//! concrete prefix whose entries matched the target so far, lists the
//! directory behind each, and keeps the entries whose names are
//! case-insensitively equal to the next target component.  Directories
//! that differ only by case fan out into independent prefixes, so every
//! combination of casing collisions along the path is enumerated.  The
//! caller supplies the directory listings as plain data; nothing here
//! touches a filesystem.

use vstd::prelude::*;

verus! {

broadcast use vstd::seq::group_seq_axioms;

use core::cmp::Ordering;
use crate::path::bytes_equal;
use crate::path::clone_component;
use crate::path::components_equal;
use crate::path::comp_view;
use crate::path::comps_view;
use crate::path::lemma_comps_view;
use crate::path::lemma_comps_view_push;
use crate::path::Component;
use crate::path::CompV;
use crate::units::compare_osstr_case_insensitive;
use crate::units::folded_of;
use crate::units::lemma_lex_cmp_eq;

/// Why a resolution failed: the target does not have the root as a
/// literal prefix, the remaining components are empty or not all named
/// segments, or a needed directory listing is missing.
#[derive(Clone, Copy, Debug, PartialEq, Eq, Structural)]
pub enum ResolveError {
    NotUnderRoot,
    InvalidTarget,
    Io,
}

/// One entry of a directory listing: its name and whether it is itself
/// a directory.
#[derive(Clone, Debug)]
pub struct DirEntry {
    pub name: Vec<u8>,
    pub is_dir: bool,
}

/// The value of a directory entry.
pub struct EntryV {
    pub name: Seq<u8>,
    pub is_dir: bool,
}

/// The listing of one directory, keyed by its concrete path relative to
/// the search root as a sequence of component names.
#[derive(Clone, Debug)]
pub struct DirListing {
    pub path: Vec<Vec<u8>>,
    pub entries: Vec<DirEntry>,
}

/// The value of a directory listing.
pub struct ListingV {
    pub path: Seq<Seq<u8>>,
    pub entries: Seq<EntryV>,
}

/// The values of a sequence of names.
pub open spec fn names_view(ns: Seq<Vec<u8>>) -> Seq<Seq<u8>>
    decreases ns.len(),
{
    if ns.len() == 0 {
        Seq::empty()
    } else {
        seq![ns[0]@] + names_view(ns.drop_first())
    }
}

/// Length and contents of the value sequence of a sequence of names.
pub proof fn lemma_names_view(ns: Seq<Vec<u8>>)
    ensures
        names_view(ns).len() == ns.len(),
        forall|i: int| 0 <= i < ns.len() ==> names_view(ns)[i] == ns[i]@,
    decreases ns.len(),
{
    if ns.len() > 0 {
        lemma_names_view(ns.drop_first());
    }
}

/// Extending a sequence of names extends its value sequence.
pub proof fn lemma_names_view_push(ns: Seq<Vec<u8>>, n: Vec<u8>)
    ensures
        names_view(ns.push(n)) == names_view(ns).push(n@),
{
    lemma_names_view(ns);
    lemma_names_view(ns.push(n));
    assert(names_view(ns.push(n)) =~= names_view(ns).push(n@));
}

/// The values of a sequence of name paths.
pub open spec fn paths_view(ps: Seq<Vec<Vec<u8>>>) -> Seq<Seq<Seq<u8>>>
    decreases ps.len(),
{
    if ps.len() == 0 {
        Seq::empty()
    } else {
        seq![names_view(ps[0]@)] + paths_view(ps.drop_first())
    }
}

/// Length and contents of the value sequence of a sequence of name
/// paths.
pub proof fn lemma_paths_view(ps: Seq<Vec<Vec<u8>>>)
    ensures
        paths_view(ps).len() == ps.len(),
        forall|i: int| 0 <= i < ps.len() ==> paths_view(ps)[i] == names_view(ps[i]@),
    decreases ps.len(),
{
    if ps.len() > 0 {
        lemma_paths_view(ps.drop_first());
    }
}

/// Extending a sequence of name paths extends its value sequence.
pub proof fn lemma_paths_view_push(ps: Seq<Vec<Vec<u8>>>, p: Vec<Vec<u8>>)
    ensures
        paths_view(ps.push(p)) == paths_view(ps).push(names_view(p@)),
{
    lemma_paths_view(ps);
    lemma_paths_view(ps.push(p));
    assert(paths_view(ps.push(p)) =~= paths_view(ps).push(names_view(p@)));
}

/// The values of a sequence of directory entries.
pub open spec fn entries_view(es: Seq<DirEntry>) -> Seq<EntryV>
    decreases es.len(),
{
    if es.len() == 0 {
        Seq::empty()
    } else {
        seq![EntryV { name: es[0].name@, is_dir: es[0].is_dir }] + entries_view(es.drop_first())
    }
}

/// Length and contents of the value sequence of a sequence of entries.
pub proof fn lemma_entries_view(es: Seq<DirEntry>)
    ensures
        entries_view(es).len() == es.len(),
        forall|i: int|
            0 <= i < es.len() ==> entries_view(es)[i] == (EntryV {
                name: es[i].name@,
                is_dir: es[i].is_dir,
            }),
    decreases es.len(),
{
    if es.len() > 0 {
        lemma_entries_view(es.drop_first());
    }
}

/// The values of a sequence of directory listings.
pub open spec fn listings_view(ls: Seq<DirListing>) -> Seq<ListingV>
    decreases ls.len(),
{
    if ls.len() == 0 {
        Seq::empty()
    } else {
        seq![
            ListingV { path: names_view(ls[0].path@), entries: entries_view(ls[0].entries@) },
        ] + listings_view(ls.drop_first())
    }
}

/// Length and contents of the value sequence of a sequence of listings.
pub proof fn lemma_listings_view(ls: Seq<DirListing>)
    ensures
        listings_view(ls).len() == ls.len(),
        forall|i: int|
            0 <= i < ls.len() ==> listings_view(ls)[i] == (ListingV {
                path: names_view(ls[i].path@),
                entries: entries_view(ls[i].entries@),
            }),
    decreases ls.len(),
{
    if ls.len() > 0 {
        lemma_listings_view(ls.drop_first());
    }
}

/// The entries listed for the directory at `p`, taking the first
/// listing whose path is `p`, or nothing when no listing covers it.
pub open spec fn lookup_listing(fs: Seq<ListingV>, p: Seq<Seq<u8>>) -> Option<Seq<EntryV>>
    decreases fs.len(),
{
    if fs.len() == 0 {
        Option::None
    } else if fs[0].path == p {
        Option::Some(fs[0].entries)
    } else {
        lookup_listing(fs.drop_first(), p)
    }
}

/// True when the listed entries hold one named `name` that is
/// case-insensitively equal to `head`, a directory if one is required.
pub open spec fn entry_matches(es: Seq<EntryV>, name: Seq<u8>, head: Seq<u8>, need_dir: bool) -> bool {
    exists|j: int|
        0 <= j < es.len() && es[j].name == name && (need_dir ==> es[j].is_dir) && folded_of(name)
            == folded_of(head)
}

/// True when position `i` of the concrete path `m` is confirmed against
/// the target components `rem`: the directory at the prefix before `i`
/// is listed, and it holds an entry with exactly the name `m[i]` that
/// matches `rem[i]` case-insensitively, a directory if required.
pub open spec fn step_ok(
    fs: Seq<ListingV>,
    rem: Seq<Seq<u8>>,
    m: Seq<Seq<u8>>,
    i: int,
    need_dir: bool,
) -> bool {
    match lookup_listing(fs, m.take(i)) {
        Option::Some(es) => entry_matches(es, m[i], rem[i], need_dir),
        Option::None => false,
    }
}

/// A confirmed intermediate prefix: every component so far names a real
/// directory entry matching the target case-insensitively, and some
/// target components remain beyond it.
pub open spec fn is_partial(fs: Seq<ListingV>, rem: Seq<Seq<u8>>, p: Seq<Seq<u8>>) -> bool {
    &&& p.len() < rem.len()
    &&& forall|i: int| 0 <= i < p.len() ==> step_ok(fs, rem, p, i, true)
}

/// A concrete on-disk path matching the whole target: one confirmed
/// entry per target component, directories at every level but the last.
pub open spec fn is_match(fs: Seq<ListingV>, rem: Seq<Seq<u8>>, m: Seq<Seq<u8>>) -> bool {
    &&& rem.len() > 0
    &&& m.len() == rem.len()
    &&& forall|i: int| 0 <= i < m.len() - 1 ==> step_ok(fs, rem, m, i, true)
    &&& step_ok(fs, rem, m, m.len() - 1, false)
}

/// True when the root is exactly the bare current-directory marker, the
/// default root, against which no prefix is stripped.
pub open spec fn is_cur_root(r: Seq<CompV>) -> bool {
    r.len() == 1 && r[0] is Cur
}

/// True when the root is a literal, case-sensitive, component-for-
/// component prefix of the path.
pub open spec fn is_literal_prefix(r: Seq<CompV>, p: Seq<CompV>) -> bool {
    r.len() <= p.len() && forall|i: int| 0 <= i < r.len() ==> p[i] == r[i]
}

/// The target components still to resolve once the root is stripped.
pub open spec fn remainder(r: Seq<CompV>, p: Seq<CompV>) -> Seq<CompV> {
    if is_cur_root(r) {
        p
    } else {
        p.skip(r.len() as int)
    }
}

/// True when every component of the path is a named segment.
pub open spec fn all_normal(p: Seq<CompV>) -> bool {
    forall|i: int| 0 <= i < p.len() ==> p[i] is Normal
}

/// The name of a component, empty for a marker.
pub open spec fn comp_name(c: CompV) -> Seq<u8> {
    match c {
        CompV::Normal(n) => n,
        _ => Seq::empty(),
    }
}

/// The names of a path's components in order.
pub open spec fn names_of(p: Seq<CompV>) -> Seq<Seq<u8>>
    decreases p.len(),
{
    if p.len() == 0 {
        Seq::empty()
    } else {
        seq![comp_name(p[0])] + names_of(p.drop_first())
    }
}

/// Length and contents of a path's component names.
pub proof fn lemma_names_of(p: Seq<CompV>)
    ensures
        names_of(p).len() == p.len(),
        forall|i: int| 0 <= i < p.len() ==> names_of(p)[i] == comp_name(p[i]),
    decreases p.len(),
{
    if p.len() > 0 {
        lemma_names_of(p.drop_first());
    }
}

/// The root a resolution runs against: the one given, or the bare
/// current-directory marker.
pub open spec fn root_view(root: Option<&Vec<Component>>) -> Seq<CompV> {
    match root {
        Option::Some(rv) => comps_view(rv@),
        Option::None => seq![CompV::Cur],
    }
}

/// Strips the root from the target, byte for byte and before any case
/// folding, and hands back the names of the components still to
/// resolve.  Fails with `NotUnderRoot` when the root is not a literal
/// prefix of the target, and with `InvalidTarget` when nothing remains
/// to resolve or a remaining component is not a named segment.
pub fn resolve_start(target: &Vec<Component>, root: Option<&Vec<Component>>) -> (r: Result<
    Vec<Vec<u8>>,
    ResolveError,
>)
    ensures
        ({
            let rootv = root_view(root);
            let tv = comps_view(target@);
            let under = is_cur_root(rootv) || is_literal_prefix(rootv, tv);
            let remv = remainder(rootv, tv);
            match r {
                Result::Ok(names) => {
                    &&& under
                    &&& remv.len() > 0
                    &&& all_normal(remv)
                    &&& names_view(names@) == names_of(remv)
                },
                Result::Err(ResolveError::NotUnderRoot) => !under,
                Result::Err(ResolveError::InvalidTarget) => under && !(remv.len() > 0
                    && all_normal(remv)),
                Result::Err(_) => false,
            }
        }),
{
    let ghost tv = comps_view(target@);
    let ghost rootv = root_view(root);
    proof {
        lemma_comps_view(target@);
    }
    let start: usize = match root {
        Option::Some(rv) => {
            proof {
                lemma_comps_view(rv@);
            }
            let cur_root = rv.len() == 1 && matches!(&rv[0], Component::CurDir);
            if cur_root {
                proof {
                    assert(is_cur_root(rootv));
                }
                0
            } else {
                if rv.len() > target.len() {
                    proof {
                        assert(!is_literal_prefix(rootv, tv));
                        assert(!is_cur_root(rootv));
                    }
                    return Result::Err(ResolveError::NotUnderRoot);
                }
                let mut i: usize = 0;
                while i < rv.len()
                    invariant
                        i <= rv@.len(),
                        rv@.len() <= target@.len(),
                        rootv == root_view(root),
                        rootv == comps_view(rv@),
                        tv == comps_view(target@),
                        rootv.len() == rv@.len(),
                        tv.len() == target@.len(),
                        forall|k: int| 0 <= k < rv@.len() ==> rootv[k] == comp_view(rv@[k]),
                        forall|k: int| 0 <= k < target@.len() ==> tv[k] == comp_view(target@[k]),
                        forall|k: int| 0 <= k < i ==> tv[k] == rootv[k],
                        !is_cur_root(rootv),
                    decreases rv@.len() - i,
                {
                    if !components_equal(&target[i], &rv[i]) {
                        proof {
                            assert(tv[i as int] != rootv[i as int]);
                            assert(!is_literal_prefix(rootv, tv));
                        }
                        return Result::Err(ResolveError::NotUnderRoot);
                    }
                    i = i + 1;
                }
                proof {
                    assert(is_literal_prefix(rootv, tv));
                }
                rv.len()
            }
        },
        Option::None => {
            proof {
                assert(is_cur_root(rootv));
            }
            0
        },
    };
    let ghost remv = remainder(rootv, tv);
    proof {
        assert(remv.len() == tv.len() - start);
        assert(forall|k: int| 0 <= k < remv.len() ==> remv[k] == tv[start + k]);
        lemma_names_of(remv);
    }
    if start >= target.len() {
        return Result::Err(ResolveError::InvalidTarget);
    }
    let mut names: Vec<Vec<u8>> = Vec::new();
    let mut i: usize = start;
    proof {
        assert(names_view(names@) =~= names_of(remv).take(0));
    }
    while i < target.len()
        invariant
            start <= i <= target@.len(),
            rootv == root_view(root),
            tv == comps_view(target@),
            is_cur_root(rootv) || is_literal_prefix(rootv, tv),
            remv == remainder(rootv, tv),
            tv.len() == target@.len(),
            forall|k: int| 0 <= k < target@.len() ==> tv[k] == comp_view(target@[k]),
            remv.len() == tv.len() - start,
            forall|k: int| 0 <= k < remv.len() ==> remv[k] == tv[start + k],
            names_of(remv).len() == remv.len(),
            forall|k: int| 0 <= k < remv.len() ==> names_of(remv)[k] == comp_name(remv[k]),
            forall|k: int| 0 <= k < i - start ==> remv[k] is Normal,
            names_view(names@) == names_of(remv).take(i - start),
        decreases target@.len() - i,
    {
        match &target[i] {
            Component::Normal(n) => {
                let nb = crate::path::clone_bytes(n);
                proof {
                    lemma_names_view_push(names@, nb);
                    assert(names_of(remv).take(i - start).push(names_of(remv)[i - start]) =~= names_of(
                        remv,
                    ).take(i - start + 1));
                }
                names.push(nb);
            },
            _ => {
                proof {
                    assert(!(remv[i - start] is Normal));
                }
                return Result::Err(ResolveError::InvalidTarget);
            },
        }
        i = i + 1;
    }
    proof {
        assert(all_normal(remv));
        assert(names_of(remv).take(remv.len() as int) =~= names_of(remv));
    }
    Result::Ok(names)
}

/// Membership in a pushed sequence.
proof fn lemma_contains_push<T>(s: Seq<T>, x: T)
    ensures
        forall|y: T| #[trigger] s.push(x).contains(y) <==> s.contains(y) || y == x,
{
    assert forall|y: T| #[trigger] s.push(x).contains(y) implies s.contains(y) || y == x by {
        let i = choose|i: int| 0 <= i < s.push(x).len() && s.push(x)[i] == y;
        if i < s.len() {
            assert(s[i] == y);
        }
    }
    assert forall|y: T| s.contains(y) || y == x implies #[trigger] s.push(x).contains(y) by {
        if s.contains(y) {
            let i = choose|i: int| 0 <= i < s.len() && s[i] == y;
            assert(s.push(x)[i] == y);
        } else {
            assert(s.push(x)[s.len() as int] == y);
        }
    }
}

/// Copies a name path.
fn clone_names(p: &Vec<Vec<u8>>) -> (r: Vec<Vec<u8>>)
    ensures
        names_view(r@) == names_view(p@),
{
    let mut r: Vec<Vec<u8>> = Vec::new();
    let mut i: usize = 0;
    proof {
        lemma_names_view(p@);
        assert(names_view(r@) =~= names_view(p@).take(0));
    }
    while i < p.len()
        invariant
            i <= p@.len(),
            names_view(p@).len() == p@.len(),
            forall|k: int| 0 <= k < p@.len() ==> names_view(p@)[k] == p@[k]@,
            names_view(r@) == names_view(p@).take(i as int),
        decreases p@.len() - i,
    {
        let n = crate::path::clone_bytes(&p[i]);
        proof {
            lemma_names_view_push(r@, n);
            assert(names_view(p@).take(i as int).push(p@[i as int]@) =~= names_view(p@).take(
                i + 1,
            ));
        }
        r.push(n);
        i = i + 1;
    }
    proof {
        assert(names_view(p@).take(p@.len() as int) =~= names_view(p@));
    }
    r
}

/// Compares two name paths for literal equality.
fn names_equal(a: &Vec<Vec<u8>>, b: &Vec<Vec<u8>>) -> (r: bool)
    ensures
        r == (names_view(a@) == names_view(b@)),
{
    proof {
        lemma_names_view(a@);
        lemma_names_view(b@);
    }
    if a.len() != b.len() {
        proof {
            assert(names_view(a@).len() != names_view(b@).len());
        }
        return false;
    }
    let mut i: usize = 0;
    while i < a.len()
        invariant
            i <= a@.len(),
            a@.len() == b@.len(),
            names_view(a@).len() == a@.len(),
            names_view(b@).len() == b@.len(),
            forall|k: int| 0 <= k < a@.len() ==> names_view(a@)[k] == a@[k]@,
            forall|k: int| 0 <= k < b@.len() ==> names_view(b@)[k] == b@[k]@,
            forall|k: int| 0 <= k < i ==> names_view(a@)[k] == names_view(b@)[k],
        decreases a@.len() - i,
    {
        if !bytes_equal(&a[i], &b[i]) {
            proof {
                assert(names_view(a@)[i as int] != names_view(b@)[i as int]);
            }
            return false;
        }
        i = i + 1;
    }
    proof {
        assert(names_view(a@) =~= names_view(b@));
    }
    true
}

/// Finds the listing recorded for the directory at `p`, taking the
/// first whose path is literally equal.
fn lookup_entries<'a>(fs: &'a Vec<DirListing>, p: &Vec<Vec<u8>>) -> (r: Option<&'a Vec<DirEntry>>)
    ensures
        match r {
            Option::Some(es) => lookup_listing(listings_view(fs@), names_view(p@))
                == Option::Some(entries_view(es@)),
            Option::None => lookup_listing(listings_view(fs@), names_view(p@)) is None,
        },
{
    let ghost fsv = listings_view(fs@);
    let ghost pv = names_view(p@);
    proof {
        lemma_listings_view(fs@);
        assert(fsv.skip(0) =~= fsv);
    }
    let mut t: usize = 0;
    while t < fs.len()
        invariant
            t <= fs@.len(),
            fsv == listings_view(fs@),
            pv == names_view(p@),
            fsv.len() == fs@.len(),
            forall|k: int|
                0 <= k < fs@.len() ==> fsv[k] == (ListingV {
                    path: names_view(fs@[k].path@),
                    entries: entries_view(fs@[k].entries@),
                }),
            lookup_listing(fsv, pv) == lookup_listing(fsv.skip(t as int), pv),
        decreases fs@.len() - t,
    {
        proof {
            assert(fsv.skip(t as int)[0] == fsv[t as int]);
        }
        if names_equal(&fs[t].path, p) {
            proof {
                assert(fsv.skip(t as int).len() > 0);
                assert(fsv[t as int].path == pv);
            }
            return Option::Some(&fs[t].entries);
        }
        proof {
            assert(fsv.skip(t as int).drop_first() =~= fsv.skip(t + 1));
        }
        t = t + 1;
    }
    proof {
        assert(fsv.skip(t as int).len() == 0);
    }
    Option::None
}

/// A prefix of a confirmed intermediate prefix is itself one.
proof fn lemma_partial_take(fs: Seq<ListingV>, rem: Seq<Seq<u8>>, p: Seq<Seq<u8>>, d: int)
    requires
        is_partial(fs, rem, p),
        0 <= d <= p.len(),
    ensures
        is_partial(fs, rem, p.take(d)),
{
    assert forall|i: int| 0 <= i < d implies step_ok(fs, rem, p.take(d), i, true) by {
        assert(step_ok(fs, rem, p, i, true));
        assert(p.take(d).take(i) =~= p.take(i));
        assert(p.take(d)[i] == p[i]);
    }
}

/// The prefix of a match before its last component is a confirmed
/// intermediate prefix.
proof fn lemma_match_prefix_partial(fs: Seq<ListingV>, rem: Seq<Seq<u8>>, m: Seq<Seq<u8>>, d: int)
    requires
        is_match(fs, rem, m),
        0 <= d < m.len(),
    ensures
        is_partial(fs, rem, m.take(d)),
{
    assert forall|i: int| 0 <= i < d implies step_ok(fs, rem, m.take(d), i, true) by {
        assert(step_ok(fs, rem, m, i, true));
        assert(m.take(d).take(i) =~= m.take(i));
        assert(m.take(d)[i] == m[i]);
    }
}

/// Taking one more element extends a taken prefix by it.
proof fn lemma_take_succ<T>(s: Seq<T>, k: int)
    requires
        0 <= k < s.len(),
    ensures
        s.take(k + 1) == s.take(k).push(s[k]),
{
    assert(s.take(k + 1) =~= s.take(k).push(s[k]));
}

/// Appends view-equal copies of the given name paths.
fn append_paths(dst: &mut Vec<Vec<Vec<u8>>>, more: &Vec<Vec<Vec<u8>>>)
    ensures
        forall|q: Seq<Seq<u8>>|
            #[trigger] paths_view(final(dst)@).contains(q) <==> paths_view(old(dst)@).contains(q)
                || paths_view(more@).contains(q),
{
    let ghost base = paths_view(dst@);
    let ghost mv = paths_view(more@);
    proof {
        lemma_paths_view(more@);
    }
    let mut i: usize = 0;
    proof {
        assert forall|q: Seq<Seq<u8>>| #[trigger] mv.take(0).contains(q) implies false by {}
    }
    while i < more.len()
        invariant
            i <= more@.len(),
            mv == paths_view(more@),
            mv.len() == more@.len(),
            forall|k: int| 0 <= k < more@.len() ==> mv[k] == names_view(more@[k]@),
            forall|q: Seq<Seq<u8>>|
                #[trigger] paths_view(dst@).contains(q) <==> base.contains(q) || mv.take(
                    i as int,
                ).contains(q),
        decreases more@.len() - i,
    {
        let np = clone_names(&more[i]);
        let ghost dv = paths_view(dst@);
        proof {
            lemma_paths_view_push(dst@, np);
            lemma_contains_push(dv, mv[i as int]);
            lemma_contains_push(mv.take(i as int), mv[i as int]);
            lemma_take_succ(mv, i as int);
        }
        dst.push(np);
        i = i + 1;
    }
    proof {
        assert(mv.take(mv.len() as int) =~= mv);
    }
}

/// The children a confirmed prefix gains from one directory's entries:
/// one extended prefix per entry whose name is case-insensitively equal
/// to the head target component, restricted to directories when the
/// search must still descend.  The extensions keep the listing's order.
pub fn expand_one(
    prefix: &Vec<Vec<u8>>,
    head: &Vec<u8>,
    entries: &Vec<DirEntry>,
    need_dir: bool,
) -> (r: Vec<Vec<Vec<u8>>>)
    ensures
        ({
            let pv = names_view(prefix@);
            let ev = entries_view(entries@);
            forall|q: Seq<Seq<u8>>|
                #[trigger] paths_view(r@).contains(q) <==> exists|j: int|
                    0 <= j < ev.len() && q == pv.push(ev[j].name) && (need_dir ==> ev[j].is_dir)
                        && folded_of(ev[j].name) == folded_of(head@)
        }),
{
    let ghost pv = names_view(prefix@);
    let ghost ev = entries_view(entries@);
    proof {
        lemma_entries_view(entries@);
    }
    let mut r: Vec<Vec<Vec<u8>>> = Vec::new();
    let mut j: usize = 0;
    proof {
        assert(paths_view(r@) =~= Seq::<Seq<Seq<u8>>>::empty());
    }
    while j < entries.len()
        invariant
            j <= entries@.len(),
            pv == names_view(prefix@),
            ev == entries_view(entries@),
            ev.len() == entries@.len(),
            forall|k: int|
                0 <= k < entries@.len() ==> ev[k] == (EntryV {
                    name: entries@[k].name@,
                    is_dir: entries@[k].is_dir,
                }),
            forall|q: Seq<Seq<u8>>|
                #[trigger] paths_view(r@).contains(q) <==> exists|t: int|
                    0 <= t < j && q == pv.push(ev[t].name) && (need_dir ==> ev[t].is_dir) && folded_of(
                        ev[t].name,
                    ) == folded_of(head@),
        decreases entries@.len() - j,
    {
        let e = &entries[j];
        let keep = !need_dir || e.is_dir;
        if keep {
            let o = compare_osstr_case_insensitive(&e.name, head);
            proof {
                lemma_lex_cmp_eq(folded_of(e.name@), folded_of(head@));
            }
            match o {
                Ordering::Equal => {
                    let mut np = clone_names(prefix);
                    let nb = crate::path::clone_bytes(&e.name);
                    proof {
                        lemma_names_view_push(np@, nb);
                    }
                    np.push(nb);
                    let ghost rv = paths_view(r@);
                    proof {
                        assert(names_view(np@) == pv.push(ev[j as int].name));
                        lemma_paths_view_push(r@, np);
                        lemma_contains_push(rv, pv.push(ev[j as int].name));
                        lemma_paths_view(r@.push(np));
                    }
                    r.push(np);
                },
                _ => {},
            }
        }
        j = j + 1;
    }
    r
}

/// Runs the breadth-expanding search for the target component names
/// against the recorded listings, level by level from the root: the
/// cost is bound by the number of case-insensitive matches at each
/// level, never by the size of the whole tree.
fn search_levels(rem: &Vec<Vec<u8>>, fs: &Vec<DirListing>) -> (r: Result<
    Vec<Vec<Vec<u8>>>,
    ResolveError,
>)
    requires
        names_view(rem@).len() > 0,
    ensures
        ({
            let remv = names_view(rem@);
            let fsv = listings_view(fs@);
            match r {
                Result::Ok(ms) => {
                    &&& forall|p: Seq<Seq<u8>>|
                        #[trigger] is_partial(fsv, remv, p) ==> lookup_listing(fsv, p) is Some
                    &&& forall|m: Seq<Seq<u8>>|
                        #[trigger] paths_view(ms@).contains(m) ==> is_match(fsv, remv, m)
                    &&& forall|m: Seq<Seq<u8>>|
                        #[trigger] is_match(fsv, remv, m) ==> paths_view(ms@).contains(m)
                },
                Result::Err(e) => e == ResolveError::Io && exists|p: Seq<Seq<u8>>|
                    is_partial(fsv, remv, p) && lookup_listing(fsv, p) is None,
            }
        }),
{
    let ghost remv = names_view(rem@);
    let ghost fsv = listings_view(fs@);
    proof {
        lemma_names_view(rem@);
    }
    let mut level: Vec<Vec<Vec<u8>>> = Vec::new();
    let first: Vec<Vec<u8>> = Vec::new();
    proof {
        assert(names_view(first@) =~= Seq::<Seq<u8>>::empty());
        lemma_paths_view_push(level@, first);
    }
    level.push(first);
    let mut depth: usize = 0;
    proof {
        lemma_paths_view(level@);
        assert forall|p: Seq<Seq<u8>>| #[trigger] paths_view(level@).contains(p) implies (p.len()
            == 0 && is_partial(fsv, remv, p)) by {
            assert(paths_view(level@).len() == 1);
            assert(p == paths_view(level@)[0]);
            assert(p.len() == 0);
        }
        assert forall|p: Seq<Seq<u8>>| p.len() == 0 && is_partial(fsv, remv, p) implies #[trigger]
            paths_view(level@).contains(p) by {
            assert(p =~= paths_view(level@)[0]);
        }
    }
    let n = rem.len();
    while depth + 1 < n
        invariant
            remv == names_view(rem@),
            fsv == listings_view(fs@),
            remv.len() == rem@.len(),
            remv.len() == n,
            remv.len() > 0,
            forall|k: int| 0 <= k < rem@.len() ==> remv[k] == rem@[k]@,
            depth + 1 <= remv.len(),
            forall|p: Seq<Seq<u8>>|
                #![trigger paths_view(level@).contains(p)]
                #![trigger is_partial(fsv, remv, p)]
                paths_view(level@).contains(p) <==> (p.len() == depth && is_partial(
                    fsv,
                    remv,
                    p,
                )),
            forall|p: Seq<Seq<u8>>|
                #[trigger] is_partial(fsv, remv, p) && p.len() < depth ==> lookup_listing(
                    fsv,
                    p,
                ) is Some,
        decreases remv.len() - depth,
    {
        let head = &rem[depth];
        let ghost lv = paths_view(level@);
        proof {
            lemma_paths_view(level@);
        }
        let mut next: Vec<Vec<Vec<u8>>> = Vec::new();
        let mut k: usize = 0;
        proof {
            assert(paths_view(next@) =~= Seq::<Seq<Seq<u8>>>::empty());
        }
        while k < level.len()
            invariant
                remv == names_view(rem@),
                fsv == listings_view(fs@),
                remv.len() == rem@.len(),
                remv.len() > 0,
                depth + 1 < remv.len(),
                head@ == remv[depth as int],
                k <= level@.len(),
                lv == paths_view(level@),
                lv.len() == level@.len(),
                forall|t: int| 0 <= t < level@.len() ==> lv[t] == names_view(level@[t]@),
                forall|p: Seq<Seq<u8>>|
                    #![trigger lv.contains(p)]
                    #![trigger is_partial(fsv, remv, p)]
                    lv.contains(p) <==> (p.len() == depth && is_partial(fsv, remv, p)),
                forall|t: int| 0 <= t < k ==> lookup_listing(fsv, #[trigger] lv[t]) is Some,
                forall|q: Seq<Seq<u8>>|
                    #[trigger] paths_view(next@).contains(q) <==> (q.len() == depth + 1
                        && is_partial(fsv, remv, q) && lv.take(k as int).contains(q.take(
                        depth as int,
                    ))),
            decreases level@.len() - k,
        {
            let p = &level[k];
            let ghost p0 = lv[k as int];
            proof {
                assert(lv.contains(p0));
                assert(p0.len() == depth && is_partial(fsv, remv, p0));
            }
            match lookup_entries(fs, p) {
                Option::None => {
                    return Result::Err(ResolveError::Io);
                },
                Option::Some(entries) => {
                    let ghost ev = entries_view(entries@);
                    let adds = expand_one(p, head, entries, true);
                    proof {
                        assert forall|q: Seq<Seq<u8>>| #[trigger] paths_view(
                            adds@,
                        ).contains(q) implies (q.len() == depth + 1 && is_partial(fsv, remv, q)
                            && q.take(depth as int) == p0) by {
                            let j = choose|j: int|
                                0 <= j < ev.len() && q == p0.push(ev[j].name) && ev[j].is_dir
                                    && folded_of(ev[j].name) == folded_of(head@);
                            assert(q.take(depth as int) =~= p0);
                            assert(q[depth as int] == ev[j].name);
                            assert forall|i: int| 0 <= i < q.len() implies step_ok(
                                fsv,
                                remv,
                                q,
                                i,
                                true,
                            ) by {
                                if i < depth {
                                    assert(step_ok(fsv, remv, p0, i, true));
                                    assert(q.take(i) =~= p0.take(i));
                                    assert(q[i] == p0[i]);
                                } else {
                                    assert(q.take(depth as int) == p0);
                                    assert(lookup_listing(fsv, p0) == Option::Some(ev));
                                    assert(entry_matches(ev, q[depth as int], remv[depth as int], true));
                                }
                            }
                        }
                        assert forall|q: Seq<Seq<u8>>|
                            (q.len() == depth + 1 && is_partial(fsv, remv, q) && q.take(
                                depth as int,
                            ) == p0) implies #[trigger] paths_view(adds@).contains(q) by {
                            assert(step_ok(fsv, remv, q, depth as int, true));
                            assert(lookup_listing(fsv, q.take(depth as int)) == Option::Some(ev));
                            let j = choose|j: int|
                                0 <= j < ev.len() && ev[j].name == q[depth as int] && ev[j].is_dir
                                    && folded_of(q[depth as int]) == folded_of(
                                    remv[depth as int],
                                );
                            assert(q =~= p0.push(ev[j].name));
                        }
                    }
                    append_paths(&mut next, &adds);
                    proof {
                        lemma_take_succ(lv, k as int);
                        lemma_contains_push(lv.take(k as int), p0);
                    }
                },
            }
            k = k + 1;
        }
        proof {
            assert(lv.take(lv.len() as int) =~= lv);
        }
        level = next;
        depth = depth + 1;
        proof {
            assert forall|q: Seq<Seq<u8>>|
                (q.len() == depth && #[trigger] is_partial(fsv, remv, q)) implies paths_view(
                level@,
            ).contains(q) by {
                lemma_partial_take(fsv, remv, q, depth - 1);
                assert(q.take(depth - 1).len() == depth - 1);
                assert(lv.contains(q.take(depth - 1)));
            }
            assert forall|p: Seq<Seq<u8>>|
                #[trigger] is_partial(fsv, remv, p) && p.len() < depth implies lookup_listing(
                fsv,
                p,
            ) is Some by {
                if p.len() == depth - 1 {
                    assert(lv.contains(p));
                    let t = choose|t: int| 0 <= t < lv.len() && lv[t] == p;
                    assert(lookup_listing(fsv, lv[t]) is Some);
                }
            }
        }
    }
    let head = &rem[depth];
    let ghost lv = paths_view(level@);
    proof {
        lemma_paths_view(level@);
        assert(depth + 1 == remv.len());
    }
    let mut found: Vec<Vec<Vec<u8>>> = Vec::new();
    let mut k: usize = 0;
    proof {
        assert(paths_view(found@) =~= Seq::<Seq<Seq<u8>>>::empty());
    }
    while k < level.len()
        invariant
            remv == names_view(rem@),
            fsv == listings_view(fs@),
            remv.len() == rem@.len(),
            remv.len() > 0,
            depth + 1 == remv.len(),
            head@ == remv[depth as int],
            k <= level@.len(),
            lv == paths_view(level@),
            lv.len() == level@.len(),
            forall|t: int| 0 <= t < level@.len() ==> lv[t] == names_view(level@[t]@),
            forall|p: Seq<Seq<u8>>|
                #![trigger lv.contains(p)]
                #![trigger is_partial(fsv, remv, p)]
                lv.contains(p) <==> (p.len() == depth && is_partial(fsv, remv, p)),
            forall|p: Seq<Seq<u8>>|
                #[trigger] is_partial(fsv, remv, p) && p.len() < depth ==> lookup_listing(
                    fsv,
                    p,
                ) is Some,
            forall|t: int| 0 <= t < k ==> lookup_listing(fsv, #[trigger] lv[t]) is Some,
            forall|m: Seq<Seq<u8>>|
                #[trigger] paths_view(found@).contains(m) <==> (is_match(fsv, remv, m) && lv.take(
                    k as int,
                ).contains(m.take(depth as int))),
        decreases level@.len() - k,
    {
        let p = &level[k];
        let ghost p0 = lv[k as int];
        proof {
            assert(lv.contains(p0));
            assert(p0.len() == depth && is_partial(fsv, remv, p0));
        }
        match lookup_entries(fs, p) {
            Option::None => {
                return Result::Err(ResolveError::Io);
            },
            Option::Some(entries) => {
                let ghost ev = entries_view(entries@);
                let adds = expand_one(p, head, entries, false);
                proof {
                    assert forall|m: Seq<Seq<u8>>| #[trigger] paths_view(
                        adds@,
                    ).contains(m) implies (is_match(fsv, remv, m) && m.take(depth as int)
                        == p0) by {
                        let j = choose|j: int|
                            0 <= j < ev.len() && m == p0.push(ev[j].name) && folded_of(ev[j].name)
                                == folded_of(head@);
                        assert(m.take(depth as int) =~= p0);
                        assert(m[depth as int] == ev[j].name);
                        assert forall|i: int| 0 <= i < m.len() - 1 implies step_ok(
                            fsv,
                            remv,
                            m,
                            i,
                            true,
                        ) by {
                            assert(step_ok(fsv, remv, p0, i, true));
                            assert(m.take(i) =~= p0.take(i));
                            assert(m[i] == p0[i]);
                        }
                        assert(lookup_listing(fsv, m.take(depth as int)) == Option::Some(ev));
                        assert(entry_matches(ev, m[depth as int], remv[depth as int], false));
                        assert(step_ok(fsv, remv, m, m.len() - 1, false));
                    }
                    assert forall|m: Seq<Seq<u8>>|
                        (is_match(fsv, remv, m) && m.take(depth as int) == p0) implies #[trigger]
                        paths_view(adds@).contains(m) by {
                        assert(step_ok(fsv, remv, m, m.len() - 1, false));
                        assert(lookup_listing(fsv, m.take(depth as int)) == Option::Some(ev));
                        let j = choose|j: int|
                            0 <= j < ev.len() && ev[j].name == m[depth as int] && folded_of(
                                m[depth as int],
                            ) == folded_of(remv[depth as int]);
                        assert(m =~= p0.push(ev[j].name));
                    }
                }
                append_paths(&mut found, &adds);
                proof {
                    lemma_take_succ(lv, k as int);
                    lemma_contains_push(lv.take(k as int), p0);
                }
            },
        }
        k = k + 1;
    }
    proof {
        assert(lv.take(lv.len() as int) =~= lv);
        assert forall|m: Seq<Seq<u8>>| #[trigger] is_match(fsv, remv, m) implies paths_view(
            found@,
        ).contains(m) by {
            lemma_match_prefix_partial(fsv, remv, m, depth as int);
            assert(m.take(depth as int).len() == depth);
            assert(lv.contains(m.take(depth as int)));
        }
        assert forall|p: Seq<Seq<u8>>| #[trigger] is_partial(fsv, remv, p) implies lookup_listing(
            fsv,
            p,
        ) is Some by {
            if p.len() == depth {
                assert(lv.contains(p));
                let t = choose|t: int| 0 <= t < lv.len() && lv[t] == p;
                assert(lookup_listing(fsv, lv[t]) is Some);
            }
        }
    }
    Result::Ok(found)
}

/// A sequence of component names seen as named path segments.
pub open spec fn names_as_comps(m: Seq<Seq<u8>>) -> Seq<CompV>
    decreases m.len(),
{
    if m.len() == 0 {
        Seq::empty()
    } else {
        seq![CompV::Normal(m[0])] + names_as_comps(m.drop_first())
    }
}

/// Length and contents of a name sequence seen as path segments.
pub proof fn lemma_names_as_comps(m: Seq<Seq<u8>>)
    ensures
        names_as_comps(m).len() == m.len(),
        forall|i: int| 0 <= i < m.len() ==> names_as_comps(m)[i] == CompV::Normal(m[i]),
    decreases m.len(),
{
    if m.len() > 0 {
        lemma_names_as_comps(m.drop_first());
    }
}

/// The concrete path a match stands for: the root followed by the
/// matched entry names as named segments.
pub open spec fn match_path(root: Seq<CompV>, m: Seq<Seq<u8>>) -> Seq<CompV> {
    root + names_as_comps(m)
}

/// The values of a sequence of component paths.
pub open spec fn comp_paths_view(ps: Seq<Vec<Component>>) -> Seq<Seq<CompV>>
    decreases ps.len(),
{
    if ps.len() == 0 {
        Seq::empty()
    } else {
        seq![comps_view(ps[0]@)] + comp_paths_view(ps.drop_first())
    }
}

/// Length and contents of the value sequence of a sequence of
/// component paths.
pub proof fn lemma_comp_paths_view(ps: Seq<Vec<Component>>)
    ensures
        comp_paths_view(ps).len() == ps.len(),
        forall|i: int| 0 <= i < ps.len() ==> comp_paths_view(ps)[i] == comps_view(ps[i]@),
    decreases ps.len(),
{
    if ps.len() > 0 {
        lemma_comp_paths_view(ps.drop_first());
    }
}

/// Extending a sequence of component paths extends its value sequence.
pub proof fn lemma_comp_paths_view_push(ps: Seq<Vec<Component>>, p: Vec<Component>)
    ensures
        comp_paths_view(ps.push(p)) == comp_paths_view(ps).push(comps_view(p@)),
{
    lemma_comp_paths_view(ps);
    lemma_comp_paths_view(ps.push(p));
    assert(comp_paths_view(ps.push(p)) =~= comp_paths_view(ps).push(comps_view(p@)));
}

/// Builds the concrete path a match stands for: a copy of the root
/// followed by the matched entry names as named segments.
fn build_match_path(rootc: &Vec<Component>, names: &Vec<Vec<u8>>) -> (r: Vec<Component>)
    ensures
        comps_view(r@) == match_path(comps_view(rootc@), names_view(names@)),
{
    let ghost rv = comps_view(rootc@);
    let ghost nv = names_view(names@);
    proof {
        lemma_comps_view(rootc@);
        lemma_names_view(names@);
        lemma_names_as_comps(nv);
    }
    let mut r: Vec<Component> = Vec::new();
    let mut i: usize = 0;
    proof {
        assert(comps_view(r@) =~= rv.take(0));
    }
    while i < rootc.len()
        invariant
            i <= rootc@.len(),
            rv == comps_view(rootc@),
            rv.len() == rootc@.len(),
            forall|k: int| 0 <= k < rootc@.len() ==> rv[k] == comp_view(rootc@[k]),
            comps_view(r@) == rv.take(i as int),
        decreases rootc@.len() - i,
    {
        let c = clone_component(&rootc[i]);
        proof {
            lemma_comps_view_push(r@, c);
            assert(rv.take(i as int).push(rv[i as int]) =~= rv.take(i + 1));
        }
        r.push(c);
        i = i + 1;
    }
    proof {
        assert(rv.take(rv.len() as int) =~= rv);
        assert(comps_view(r@) =~= rv + names_as_comps(nv).take(0));
    }
    let mut j: usize = 0;
    while j < names.len()
        invariant
            j <= names@.len(),
            rv == comps_view(rootc@),
            nv == names_view(names@),
            nv.len() == names@.len(),
            forall|k: int| 0 <= k < names@.len() ==> nv[k] == names@[k]@,
            names_as_comps(nv).len() == nv.len(),
            forall|k: int| 0 <= k < nv.len() ==> names_as_comps(nv)[k] == CompV::Normal(nv[k]),
            comps_view(r@) == rv + names_as_comps(nv).take(j as int),
        decreases names@.len() - j,
    {
        let c = Component::Normal(crate::path::clone_bytes(&names[j]));
        proof {
            lemma_comps_view_push(r@, c);
            assert((rv + names_as_comps(nv).take(j as int)).push(names_as_comps(nv)[j as int])
                =~= rv + names_as_comps(nv).take(j + 1));
        }
        r.push(c);
        j = j + 1;
    }
    proof {
        assert(names_as_comps(nv).take(nv.len() as int) =~= names_as_comps(nv));
    }
    r
}

impl crate::path::InsensitivePath {
    /// Finds every concrete path in the recorded listings that matches
    /// this path case-insensitively under the given root, in
    /// breadth-first discovery order.  The root, the current directory
    /// when none is given, must be a literal prefix of this path,
    /// compared byte for byte before any case folding; the components
    /// below it must all be named segments.  A missing listing aborts
    /// the search with an error and no partial result.
    pub fn find_matching_files(&self, root: Option<&Vec<Component>>, fs: &Vec<DirListing>) -> (r:
        Result<Vec<Vec<Component>>, ResolveError>)
        ensures
            ({
                let rootv = root_view(root);
                let tv = self@;
                let under = is_cur_root(rootv) || is_literal_prefix(rootv, tv);
                let remv = remainder(rootv, tv);
                let names = names_of(remv);
                let fsv = listings_view(fs@);
                let good = under && remv.len() > 0 && all_normal(remv);
                match r {
                    Result::Ok(ms) => {
                        &&& good
                        &&& forall|p: Seq<Seq<u8>>|
                            #[trigger] is_partial(fsv, names, p) ==> lookup_listing(fsv, p) is Some
                        &&& forall|q: Seq<CompV>|
                            #[trigger] comp_paths_view(ms@).contains(q) ==> exists|
                                m: Seq<Seq<u8>>,
                            |
                                #[trigger] is_match(fsv, names, m) && q == match_path(rootv, m)
                        &&& forall|m: Seq<Seq<u8>>|
                            #[trigger] is_match(fsv, names, m) ==> comp_paths_view(ms@).contains(
                                match_path(rootv, m),
                            )
                    },
                    Result::Err(ResolveError::NotUnderRoot) => !under,
                    Result::Err(ResolveError::InvalidTarget) => under && !(remv.len() > 0
                        && all_normal(remv)),
                    Result::Err(ResolveError::Io) => good && exists|p: Seq<Seq<u8>>|
                        is_partial(fsv, names, p) && lookup_listing(fsv, p) is None,
                }
            }),
    {
        let ghost rootv = root_view(root);
        let ghost remv = remainder(rootv, self@);
        let ghost namesv = names_of(remv);
        let ghost fsv = listings_view(fs@);
        let rem = match resolve_start(&self.0, root) {
            Result::Ok(rem) => rem,
            Result::Err(e) => {
                return Result::Err(e);
            },
        };
        proof {
            lemma_names_of(remv);
            assert(names_view(rem@).len() > 0);
        }
        let found = match search_levels(&rem, fs) {
            Result::Ok(found) => found,
            Result::Err(e) => {
                return Result::Err(e);
            },
        };
        let mut droot: Vec<Component> = Vec::new();
        proof {
            lemma_comps_view_push(droot@, Component::CurDir);
        }
        droot.push(Component::CurDir);
        let rootc: &Vec<Component> = match root {
            Option::Some(rv) => rv,
            Option::None => &droot,
        };
        proof {
            assert(comps_view(rootc@) =~= rootv);
        }
        let ghost fv = paths_view(found@);
        proof {
            lemma_paths_view(found@);
        }
        let mut out: Vec<Vec<Component>> = Vec::new();
        let mut k: usize = 0;
        proof {
            lemma_comp_paths_view(out@);
        }
        while k < found.len()
            invariant
                k <= found@.len(),
                rootv == comps_view(rootc@),
                namesv == names_view(rem@),
                fsv == listings_view(fs@),
                fv == paths_view(found@),
                fv.len() == found@.len(),
                forall|t: int| 0 <= t < found@.len() ==> fv[t] == names_view(found@[t]@),
                comp_paths_view(out@).len() == k,
                forall|t: int|
                    0 <= t < k ==> #[trigger] comp_paths_view(out@)[t] == match_path(
                        rootv,
                        fv[t],
                    ),
            decreases found@.len() - k,
        {
            let pathc = build_match_path(rootc, &found[k]);
            proof {
                lemma_comp_paths_view_push(out@, pathc);
                lemma_comp_paths_view(out@.push(pathc));
            }
            out.push(pathc);
            k = k + 1;
        }
        proof {
            lemma_comp_paths_view(out@);
            assert(out@.len() == fv.len());
            assert forall|q: Seq<CompV>| #[trigger] comp_paths_view(out@).contains(
                q,
            ) implies exists|m: Seq<Seq<u8>>|
                #[trigger] is_match(fsv, namesv, m) && q == match_path(rootv, m) by {
                let t = choose|t: int|
                    0 <= t < comp_paths_view(out@).len() && comp_paths_view(out@)[t] == q;
                assert(fv.contains(fv[t]));
                assert(is_match(fsv, namesv, fv[t]));
                assert(q == match_path(rootv, fv[t]));
            }
            assert forall|m: Seq<Seq<u8>>| #[trigger] is_match(fsv, namesv, m) implies
                comp_paths_view(out@).contains(match_path(rootv, m)) by {
                assert(fv.contains(m));
                let t = choose|t: int| 0 <= t < fv.len() && fv[t] == m;
                assert(comp_paths_view(out@)[t] == match_path(rootv, m));
            }
        }
        Result::Ok(out)
    }
}


} // verus!

//! The file-serving boundary's decision over a resolution outcome.
//!
//! Given the match set a resolution produced, the declared root and the
//! configured delivery mechanism, this picks what to answer: not found
//! on an empty set, the first discovered match otherwise, and forbidden
//! when that match does not lie under the root, a second line of
//! defence beyond the resolver's own root-prefix check.  Ambiguous
//! case-colliding duplicates are not disambiguated: the first found
//! wins.

use vstd::prelude::*;

verus! {

broadcast use vstd::seq::group_seq_axioms;

use crate::path::clone_component;
use crate::path::comp_view;
use crate::path::components_equal;
use crate::path::comps_view;
use crate::path::lemma_comps_view;
use crate::path::lemma_comps_view_push;
use crate::path::Component;
use crate::path::CompV;
use crate::resolve::comp_paths_view;
use crate::resolve::is_literal_prefix;
use crate::resolve::lemma_comp_paths_view;

/// How a found file is delivered: by streaming its bytes directly, by a
/// header naming the file for the front server to send, or by a
/// redirect header the front server resolves against a configured
/// location.  The latter two are mutually exclusive configuration
/// choices made ahead of time.
#[derive(Clone, Copy, Debug, PartialEq, Eq, Structural)]
pub enum ServeMode {
    Direct,
    Sendfile,
    NginxRedirect,
}

/// What the serving boundary should answer for one request: a missing
/// file, a refusal for a path outside the root, or a delivery of the
/// first discovered match, carrying the full path, or for a redirect
/// the path relative to the root.
#[derive(Clone, Debug)]
pub enum ServeDecision {
    NotFound,
    Forbidden,
    Serve(Vec<Component>),
    Sendfile(Vec<Component>),
    Redirect(Vec<Component>),
}

/// True when the root is a literal component-for-component prefix of
/// the path.
fn starts_with(p: &Vec<Component>, root: &Vec<Component>) -> (r: bool)
    ensures
        r == is_literal_prefix(comps_view(root@), comps_view(p@)),
{
    let ghost rv = comps_view(root@);
    let ghost pv = comps_view(p@);
    proof {
        lemma_comps_view(root@);
        lemma_comps_view(p@);
    }
    if root.len() > p.len() {
        return false;
    }
    let mut i: usize = 0;
    while i < root.len()
        invariant
            i <= root@.len(),
            root@.len() <= p@.len(),
            rv == comps_view(root@),
            pv == comps_view(p@),
            rv.len() == root@.len(),
            pv.len() == p@.len(),
            forall|k: int| 0 <= k < root@.len() ==> rv[k] == comp_view(root@[k]),
            forall|k: int| 0 <= k < p@.len() ==> pv[k] == comp_view(p@[k]),
            forall|k: int| 0 <= k < i ==> pv[k] == rv[k],
        decreases root@.len() - i,
    {
        if !components_equal(&p[i], &root[i]) {
            proof {
                assert(pv[i as int] != rv[i as int]);
            }
            return false;
        }
        i = i + 1;
    }
    true
}

/// Copies the components of a path from the given position on.
fn clone_comps_from(p: &Vec<Component>, start: usize) -> (r: Vec<Component>)
    requires
        start <= p@.len(),
    ensures
        comps_view(r@) == comps_view(p@).skip(start as int),
{
    let ghost pv = comps_view(p@);
    proof {
        lemma_comps_view(p@);
    }
    let mut r: Vec<Component> = Vec::new();
    let mut i: usize = start;
    proof {
        assert(comps_view(r@) =~= pv.skip(start as int).take(0));
    }
    while i < p.len()
        invariant
            start <= i <= p@.len(),
            pv == comps_view(p@),
            pv.len() == p@.len(),
            forall|k: int| 0 <= k < p@.len() ==> pv[k] == comp_view(p@[k]),
            comps_view(r@) == pv.skip(start as int).take(i - start),
        decreases p@.len() - i,
    {
        let c = clone_component(&p[i]);
        proof {
            lemma_comps_view_push(r@, c);
            assert(pv.skip(start as int)[i - start] == pv[i as int]);
            assert(pv.skip(start as int).take(i - start).push(pv.skip(start as int)[i - start])
                =~= pv.skip(start as int).take(i - start + 1));
        }
        r.push(c);
        i = i + 1;
    }
    proof {
        assert(pv.skip(start as int).take(pv.skip(start as int).len() as int) =~= pv.skip(
            start as int,
        ));
    }
    r
}

/// Picks the answer for one request from the match set a resolution
/// produced: not found on an empty set; otherwise the first discovered
/// match, refused when it does not lie literally under the root, and
/// delivered according to the configured mechanism, for a redirect as
/// the path relative to the root.
pub fn serve_decision(matches: &Vec<Vec<Component>>, root: &Vec<Component>, mode: ServeMode) -> (d:
    ServeDecision)
    ensures
        ({
            let mv = comp_paths_view(matches@);
            let rv = comps_view(root@);
            match d {
                ServeDecision::NotFound => mv.len() == 0,
                ServeDecision::Forbidden => mv.len() > 0 && !is_literal_prefix(rv, mv[0]),
                ServeDecision::Serve(p) => mode == ServeMode::Direct && mv.len() > 0
                    && is_literal_prefix(rv, mv[0]) && comps_view(p@) == mv[0],
                ServeDecision::Sendfile(p) => mode == ServeMode::Sendfile && mv.len() > 0
                    && is_literal_prefix(rv, mv[0]) && comps_view(p@) == mv[0],
                ServeDecision::Redirect(p) => mode == ServeMode::NginxRedirect && mv.len() > 0
                    && is_literal_prefix(rv, mv[0]) && comps_view(p@) == mv[0].skip(
                    rv.len() as int,
                ),
            }
        }),
{
    proof {
        lemma_comp_paths_view(matches@);
    }
    if matches.len() == 0 {
        return ServeDecision::NotFound;
    }
    let first = &matches[0];
    proof {
        assert(comp_paths_view(matches@)[0] == comps_view(first@));
    }
    if !starts_with(first, root) {
        return ServeDecision::Forbidden;
    }
    proof {
        lemma_comps_view(root@);
        lemma_comps_view(first@);
        assert(root@.len() <= first@.len());
    }
    match mode {
        ServeMode::Direct => ServeDecision::Serve(clone_comps_from(first, 0)),
        ServeMode::Sendfile => ServeDecision::Sendfile(clone_comps_from(first, 0)),
        ServeMode::NginxRedirect => ServeDecision::Redirect(clone_comps_from(first, root.len())),
    }
}

} // verus!

//! Paths as component sequences, and the case-insensitive identity over
//! them: a total order, equality and hash built from the case-folded
//! unit streams of normal components, together with a purely textual
//! normalizer that collapses parent-directory markers.

use vstd::prelude::*;

verus! {

broadcast use vstd::seq::group_seq_axioms;

use core::cmp::Ordering;
use crate::units::compare_osstr_case_insensitive;
use crate::units::flip_ord;
use crate::units::folded_of;
use crate::units::lemma_lex_cmp_eq;
use crate::units::lemma_lex_cmp_flip;
use crate::units::lemma_lex_cmp_trans;
use crate::units::lex_cmp_units;
use crate::units::UnitV;

/// One path component over the OS-native byte encoding: a root marker, a
/// current-directory marker, a parent-directory marker, or a named
/// segment of arbitrary bytes that need not be valid text.
#[derive(Clone, Debug, PartialEq, Eq)]
pub enum Component {
    RootDir,
    CurDir,
    ParentDir,
    Normal(Vec<u8>),
}

/// The mathematical value of a component, with a named segment as its
/// byte sequence.
pub enum CompV {
    Root,
    Cur,
    Parent,
    Normal(Seq<u8>),
}

/// The value of one component.
pub open spec fn comp_view(c: Component) -> CompV {
    match c {
        Component::RootDir => CompV::Root,
        Component::CurDir => CompV::Cur,
        Component::ParentDir => CompV::Parent,
        Component::Normal(n) => CompV::Normal(n@),
    }
}

/// The values of a component sequence.
pub open spec fn comps_view(cs: Seq<Component>) -> Seq<CompV>
    decreases cs.len(),
{
    if cs.len() == 0 {
        Seq::empty()
    } else {
        seq![comp_view(cs[0])] + comps_view(cs.drop_first())
    }
}

/// Length and contents of the value sequence of a component sequence.
pub proof fn lemma_comps_view(cs: Seq<Component>)
    ensures
        comps_view(cs).len() == cs.len(),
        forall|i: int| 0 <= i < cs.len() ==> comps_view(cs)[i] == comp_view(cs[i]),
    decreases cs.len(),
{
    if cs.len() > 0 {
        lemma_comps_view(cs.drop_first());
    }
}

/// Extending a component sequence by one component extends its value
/// sequence.
pub proof fn lemma_comps_view_push(cs: Seq<Component>, c: Component)
    ensures
        comps_view(cs.push(c)) == comps_view(cs).push(comp_view(c)),
{
    lemma_comps_view(cs);
    lemma_comps_view(cs.push(c));
    assert(comps_view(cs.push(c)) =~= comps_view(cs).push(comp_view(c)));
}

/// A path wrapped with the case-insensitive total order, equality and
/// hash: non-normal components compare by their literal identity, normal
/// components by their case-folded unit streams.
#[derive(Clone, Debug)]
pub struct InsensitivePath(pub Vec<Component>);

impl View for InsensitivePath {
    type V = Seq<CompV>;

    open spec fn view(&self) -> Seq<CompV> {
        comps_view(self.0@)
    }
}

/// The rank a component's kind orders by when the kinds differ: root
/// markers first, then current-directory markers, then parent-directory
/// markers, then named segments.
pub open spec fn comp_rank(c: CompV) -> int {
    match c {
        CompV::Root => 0,
        CompV::Cur => 1,
        CompV::Parent => 2,
        CompV::Normal(_) => 3,
    }
}

/// Order of two component values: two named segments compare by their
/// case-folded unit streams, anything else by the kinds' literal order.
pub open spec fn comp_cmp(a: CompV, b: CompV) -> Ordering {
    match (a, b) {
        (CompV::Normal(x), CompV::Normal(y)) => lex_cmp_units(folded_of(x), folded_of(y)),
        _ => if comp_rank(a) < comp_rank(b) {
            Ordering::Less
        } else if comp_rank(a) == comp_rank(b) {
            Ordering::Equal
        } else {
            Ordering::Greater
        },
    }
}

/// The case-insensitive identity of a component: its kind's rank
/// together with the case-folded unit stream of its name.  Two
/// components order as equal exactly when their identities are equal.
pub open spec fn comp_key(c: CompV) -> (int, Seq<UnitV>) {
    match c {
        CompV::Normal(n) => (3, folded_of(n)),
        _ => (comp_rank(c), Seq::empty()),
    }
}

/// Two component values order as equal exactly when their identities are
/// equal.
pub proof fn lemma_comp_cmp_eq(a: CompV, b: CompV)
    ensures
        comp_cmp(a, b) == Ordering::Equal <==> comp_key(a) == comp_key(b),
{
    match (a, b) {
        (CompV::Normal(x), CompV::Normal(y)) => {
            lemma_lex_cmp_eq(folded_of(x), folded_of(y));
        },
        _ => {},
    }
}

/// Swapping the operands of the component order flips its result.
pub proof fn lemma_comp_cmp_flip(a: CompV, b: CompV)
    ensures
        comp_cmp(b, a) == flip_ord(comp_cmp(a, b)),
{
    match (a, b) {
        (CompV::Normal(x), CompV::Normal(y)) => {
            lemma_lex_cmp_flip(folded_of(x), folded_of(y));
        },
        _ => {},
    }
}

/// The component order is transitive.
pub proof fn lemma_comp_cmp_trans(a: CompV, b: CompV, c: CompV)
    requires
        comp_cmp(a, b) != Ordering::Greater,
        comp_cmp(b, c) != Ordering::Greater,
    ensures
        comp_cmp(a, c) != Ordering::Greater,
        comp_cmp(a, b) == Ordering::Less || comp_cmp(b, c) == Ordering::Less ==> comp_cmp(a, c)
            == Ordering::Less,
{
    match (a, b, c) {
        (CompV::Normal(x), CompV::Normal(y), CompV::Normal(z)) => {
            lemma_lex_cmp_trans(folded_of(x), folded_of(y), folded_of(z));
        },
        _ => {},
    }
}

/// Order of two paths: component lists compare pairwise, and once the
/// shorter is exhausted it sorts first, with simultaneous exhaustion
/// being equality.
pub open spec fn path_cmp(a: Seq<CompV>, b: Seq<CompV>) -> Ordering
    decreases a.len(),
{
    if a.len() == 0 && b.len() == 0 {
        Ordering::Equal
    } else if a.len() == 0 {
        Ordering::Less
    } else if b.len() == 0 {
        Ordering::Greater
    } else if comp_cmp(a[0], b[0]) != Ordering::Equal {
        comp_cmp(a[0], b[0])
    } else {
        path_cmp(a.drop_first(), b.drop_first())
    }
}

/// Two paths are the same path modulo case exactly when they order as
/// equal.
pub open spec fn path_eq(a: Seq<CompV>, b: Seq<CompV>) -> bool {
    path_cmp(a, b) == Ordering::Equal
}

/// The case-insensitive identity of a whole path: its components'
/// identities in order.
pub open spec fn path_key(p: Seq<CompV>) -> Seq<(int, Seq<UnitV>)>
    decreases p.len(),
{
    if p.len() == 0 {
        Seq::empty()
    } else {
        seq![comp_key(p[0])] + path_key(p.drop_first())
    }
}

/// Two paths order as equal exactly when their identities are equal.
pub proof fn lemma_path_eq_key(a: Seq<CompV>, b: Seq<CompV>)
    ensures
        path_eq(a, b) <==> path_key(a) == path_key(b),
    decreases a.len(),
{
    if a.len() != 0 && b.len() != 0 {
        lemma_comp_cmp_eq(a[0], b[0]);
        lemma_path_eq_key(a.drop_first(), b.drop_first());
        if path_eq(a, b) {
            assert(path_key(a) =~= seq![comp_key(a[0])] + path_key(a.drop_first()));
            assert(path_key(b) =~= seq![comp_key(b[0])] + path_key(b.drop_first()));
        }
        if path_key(a) == path_key(b) {
            assert(path_key(a).len() == a.len() && path_key(b).len() == b.len()) by {
                lemma_path_key_len(a);
                lemma_path_key_len(b);
            }
            assert(path_key(a)[0] == comp_key(a[0]));
            assert(path_key(b)[0] == comp_key(b[0]));
            assert(path_key(a.drop_first()) =~= path_key(a).drop_first());
            assert(path_key(b.drop_first()) =~= path_key(b).drop_first());
        }
    } else if a.len() == 0 && b.len() == 0 {
        assert(path_key(a) =~= path_key(b));
    } else if a.len() == 0 {
        lemma_path_key_len(b);
        assert(path_key(b).len() > 0);
    } else {
        lemma_path_key_len(a);
        assert(path_key(a).len() > 0);
    }
}

/// A path's identity has one entry per component.
pub proof fn lemma_path_key_len(p: Seq<CompV>)
    ensures
        path_key(p).len() == p.len(),
        forall|i: int| 0 <= i < p.len() ==> path_key(p)[i] == comp_key(p[i]),
    decreases p.len(),
{
    if p.len() > 0 {
        lemma_path_key_len(p.drop_first());
    }
}

/// Of any two paths exactly one of smaller, equal and greater holds:
/// the order is total.
pub proof fn lemma_path_cmp_trichotomy(a: Seq<CompV>, b: Seq<CompV>)
    ensures
        path_cmp(a, b) is Less || path_cmp(a, b) is Equal || path_cmp(a, b) is Greater,
        !(path_cmp(a, b) is Less && path_cmp(a, b) is Equal),
        !(path_cmp(a, b) is Less && path_cmp(a, b) is Greater),
        !(path_cmp(a, b) is Equal && path_cmp(a, b) is Greater),
{
}

/// Swapping the operands of the path order flips its result: of two
/// distinct paths exactly one is the smaller, whichever side it stands
/// on.
pub proof fn lemma_path_cmp_flip(a: Seq<CompV>, b: Seq<CompV>)
    ensures
        path_cmp(b, a) == flip_ord(path_cmp(a, b)),
    decreases a.len(),
{
    if a.len() != 0 && b.len() != 0 {
        lemma_comp_cmp_flip(a[0], b[0]);
        lemma_path_cmp_flip(a.drop_first(), b.drop_first());
    }
}

/// The path order is transitive.
pub proof fn lemma_path_cmp_trans(a: Seq<CompV>, b: Seq<CompV>, c: Seq<CompV>)
    requires
        path_cmp(a, b) != Ordering::Greater,
        path_cmp(b, c) != Ordering::Greater,
    ensures
        path_cmp(a, c) != Ordering::Greater,
        path_cmp(a, b) == Ordering::Less || path_cmp(b, c) == Ordering::Less ==> path_cmp(a, c)
            == Ordering::Less,
    decreases a.len() + b.len() + c.len(),
{
    if a.len() != 0 && b.len() != 0 && c.len() != 0 {
        lemma_comp_cmp_eq(a[0], b[0]);
        lemma_comp_cmp_eq(b[0], c[0]);
        lemma_comp_cmp_eq(a[0], c[0]);
        lemma_comp_cmp_trans(a[0], b[0], c[0]);
        if comp_cmp(a[0], b[0]) == Ordering::Equal && comp_cmp(b[0], c[0]) == Ordering::Equal {
            lemma_path_cmp_trans(a.drop_first(), b.drop_first(), c.drop_first());
        }
    }
}

/// The rank of a component's kind.
fn rank_of(c: &Component) -> (r: u8)
    ensures
        r as int == comp_rank(comp_view(*c)),
{
    match c {
        Component::RootDir => 0,
        Component::CurDir => 1,
        Component::ParentDir => 2,
        Component::Normal(_) => 3,
    }
}

/// Compares two components: two named segments case-insensitively by
/// their case-folded unit streams, anything else by the kinds' literal
/// order.
pub fn compare_components(a: &Component, b: &Component) -> (o: Ordering)
    ensures
        o == comp_cmp(comp_view(*a), comp_view(*b)),
{
    match (a, b) {
        (Component::Normal(x), Component::Normal(y)) => compare_osstr_case_insensitive(x, y),
        _ => {
            let ra = rank_of(a);
            let rb = rank_of(b);
            if ra < rb {
                Ordering::Less
            } else if ra == rb {
                Ordering::Equal
            } else {
                Ordering::Greater
            }
        },
    }
}

impl InsensitivePath {
    /// Compares two paths case-insensitively, component by component; a
    /// path that runs out of components first sorts first.
    pub fn compare(&self, other: &InsensitivePath) -> (o: Ordering)
        ensures
            o == path_cmp(self@, other@),
    {
        let ghost la = self@;
        let ghost ra = other@;
        proof {
            lemma_comps_view(self.0@);
            lemma_comps_view(other.0@);
            assert(la.skip(0) =~= la);
            assert(ra.skip(0) =~= ra);
        }
        let mut i: usize = 0;
        while i < self.0.len() && i < other.0.len()
            invariant
                i <= self.0@.len(),
                i <= other.0@.len(),
                la == self@,
                ra == other@,
                la.len() == self.0@.len(),
                ra.len() == other.0@.len(),
                forall|k: int| 0 <= k < self.0@.len() ==> la[k] == comp_view(self.0@[k]),
                forall|k: int| 0 <= k < other.0@.len() ==> ra[k] == comp_view(other.0@[k]),
                path_cmp(la, ra) == path_cmp(la.skip(i as int), ra.skip(i as int)),
            decreases self.0@.len() - i,
        {
            let o = compare_components(&self.0[i], &other.0[i]);
            proof {
                assert(la.skip(i as int)[0] == la[i as int]);
                assert(ra.skip(i as int)[0] == ra[i as int]);
            }
            match o {
                Ordering::Equal => {
                    proof {
                        assert(la.skip(i as int).drop_first() =~= la.skip(i + 1));
                        assert(ra.skip(i as int).drop_first() =~= ra.skip(i + 1));
                    }
                },
                _ => {
                    return o;
                },
            }
            i = i + 1;
        }
        if i < other.0.len() {
            proof {
                assert(la.skip(i as int).len() == 0);
                assert(ra.skip(i as int).len() > 0);
            }
            Ordering::Less
        } else if i < self.0.len() {
            Ordering::Greater
        } else {
            proof {
                assert(la.skip(i as int).len() == 0);
                assert(ra.skip(i as int).len() == 0);
            }
            Ordering::Equal
        }
    }
}

impl PartialEq for InsensitivePath {
    /// Case-insensitive equality: the two paths order as equal.
    fn eq(&self, other: &Self) -> (r: bool) {
        matches!(self.compare(other), Ordering::Equal)
    }
}

impl vstd::std_specs::cmp::PartialEqSpecImpl for InsensitivePath {
    open spec fn obeys_eq_spec() -> bool {
        true
    }

    open spec fn eq_spec(&self, other: &Self) -> bool {
        path_eq(self@, other@)
    }
}

impl PartialOrd for InsensitivePath {
    /// The case-insensitive total order.
    fn partial_cmp(&self, other: &Self) -> (r: Option<Ordering>) {
        Some(self.compare(other))
    }
}

impl vstd::std_specs::cmp::PartialOrdSpecImpl for InsensitivePath {
    open spec fn obeys_partial_cmp_spec() -> bool {
        true
    }

    open spec fn partial_cmp_spec(&self, other: &Self) -> Option<Ordering> {
        Some(path_cmp(self@, other@))
    }
}

/// The seed of the running hash accumulator.
pub open spec fn hash_seed() -> u64 {
    0xcbf29ce484222325
}

/// One mixing step of the running hash accumulator.
pub open spec fn hash_step(h: u64, v: u64) -> u64 {
    vstd::wrapping::u64_specs::wrapping_mul(h ^ v, 0x100000001b3)
}

/// The code a unit value feeds into the accumulator: a decoded scalar
/// value as its 32-bit number, a raw byte as its 8-bit value set apart
/// from every scalar value.
pub open spec fn unit_code(u: UnitV) -> u64 {
    match u {
        UnitV::Cp(v) => v as u64,
        UnitV::By(b) => (b as u64 + 0x110000) as u64,
    }
}

/// Feeding a unit stream into the accumulator, in stream order.
pub open spec fn hash_units_acc(h: u64, us: Seq<UnitV>) -> u64
    decreases us.len(),
{
    if us.len() == 0 {
        h
    } else {
        hash_units_acc(hash_step(h, unit_code(us[0])), us.drop_first())
    }
}

/// Feeding one more unit continues where the stream left off.
pub proof fn lemma_hash_units_acc_push(h: u64, us: Seq<UnitV>, u: UnitV)
    ensures
        hash_units_acc(h, us.push(u)) == hash_step(hash_units_acc(h, us), unit_code(u)),
    decreases us.len(),
{
    if us.len() == 0 {
        assert(us.push(u)[0] == u);
        assert(us.push(u).drop_first() =~= Seq::<UnitV>::empty());
        assert(hash_units_acc(h, us) == h);
        assert(hash_units_acc(hash_step(h, unit_code(u)), us.push(u).drop_first()) == hash_step(
            h,
            unit_code(u),
        ));
    } else {
        assert(us.push(u)[0] == us[0]);
        assert(us.push(u).drop_first() =~= us.drop_first().push(u));
        lemma_hash_units_acc_push(hash_step(h, unit_code(us[0])), us.drop_first(), u);
    }
}

/// Feeding one component into the accumulator: a marker feeds its rank,
/// a named segment feeds a kind tag and then its case-folded unit
/// stream.
pub open spec fn hash_comp_acc(h: u64, c: CompV) -> u64 {
    match c {
        CompV::Normal(n) => hash_units_acc(hash_step(h, 3), folded_of(n)),
        _ => hash_step(h, comp_rank(c) as u64),
    }
}

/// Feeding a whole path into the accumulator, component by component.
pub open spec fn hash_comps_acc(h: u64, p: Seq<CompV>) -> u64
    decreases p.len(),
{
    if p.len() == 0 {
        h
    } else {
        hash_comps_acc(hash_comp_acc(h, p[0]), p.drop_first())
    }
}

/// Feeding one more component continues where the path left off.
pub proof fn lemma_hash_comps_acc_push(h: u64, p: Seq<CompV>, c: CompV)
    ensures
        hash_comps_acc(h, p.push(c)) == hash_comp_acc(hash_comps_acc(h, p), c),
    decreases p.len(),
{
    if p.len() == 0 {
        assert(p.push(c)[0] == c);
        assert(p.push(c).drop_first() =~= Seq::<CompV>::empty());
        assert(hash_comps_acc(h, p) == h);
        assert(hash_comps_acc(hash_comp_acc(h, c), p.push(c).drop_first()) == hash_comp_acc(
            h,
            c,
        ));
    } else {
        assert(p.push(c)[0] == p[0]);
        assert(p.push(c).drop_first() =~= p.drop_first().push(c));
        lemma_hash_comps_acc_push(hash_comp_acc(h, p[0]), p.drop_first(), c);
    }
}

/// The case-insensitive hash of a path.
pub open spec fn path_hash(p: Seq<CompV>) -> u64 {
    hash_comps_acc(hash_seed(), p)
}

/// A component's contribution to the hash depends only on its
/// case-insensitive identity.
proof fn lemma_hash_comp_key(h: u64, a: CompV, b: CompV)
    requires
        comp_key(a) == comp_key(b),
    ensures
        hash_comp_acc(h, a) == hash_comp_acc(h, b),
{
    match (a, b) {
        (CompV::Normal(x), CompV::Normal(y)) => {
            assert(folded_of(x) == folded_of(y));
        },
        _ => {},
    }
}

/// A path's hash depends only on its case-insensitive identity.
proof fn lemma_hash_from_key(h: u64, a: Seq<CompV>, b: Seq<CompV>)
    requires
        path_key(a) == path_key(b),
    ensures
        hash_comps_acc(h, a) == hash_comps_acc(h, b),
    decreases a.len(),
{
    lemma_path_key_len(a);
    lemma_path_key_len(b);
    if a.len() != 0 {
        assert(path_key(a)[0] == comp_key(a[0]));
        assert(path_key(b)[0] == comp_key(b[0]));
        lemma_hash_comp_key(h, a[0], b[0]);
        assert(path_key(a.drop_first()) =~= path_key(a).drop_first());
        assert(path_key(b.drop_first()) =~= path_key(b).drop_first());
        lemma_hash_from_key(hash_comp_acc(h, a[0]), a.drop_first(), b.drop_first());
    }
}

/// Hash/equality consistency: two paths that are equal under the
/// case-insensitive order have the same hash.
pub proof fn lemma_path_eq_implies_hash_eq(a: Seq<CompV>, b: Seq<CompV>)
    requires
        path_eq(a, b),
    ensures
        path_hash(a) == path_hash(b),
{
    lemma_path_eq_key(a, b);
    lemma_hash_from_key(hash_seed(), a, b);
}

/// One mixing step of the running hash accumulator.
fn hash_mix(h: u64, v: u64) -> (r: u64)
    ensures
        r == hash_step(h, v),
{
    (h ^ v).wrapping_mul(0x100000001b3)
}

impl InsensitivePath {
    /// Feeds the case-folded unit stream of every component, in stream
    /// order, into the running hash accumulator.  Paths that are equal
    /// under the case-insensitive order hash alike by construction,
    /// because this is the same stream the comparison walks.
    pub fn insensitive_hash(&self) -> (h: u64)
        ensures
            h == path_hash(self@),
    {
        let ghost pv = self@;
        proof {
            lemma_comps_view(self.0@);
            assert(pv.take(0) =~= Seq::<CompV>::empty());
        }
        let mut h: u64 = 0xcbf29ce484222325;
        let mut i: usize = 0;
        while i < self.0.len()
            invariant
                i <= self.0@.len(),
                pv == self@,
                pv.len() == self.0@.len(),
                forall|k: int| 0 <= k < self.0@.len() ==> pv[k] == comp_view(self.0@[k]),
                h == hash_comps_acc(hash_seed(), pv.take(i as int)),
            decreases self.0@.len() - i,
        {
            match &self.0[i] {
                Component::Normal(n) => {
                    let units = crate::units::osstr_chars_lowercased(n);
                    let ghost fo = folded_of(n@);
                    proof {
                        crate::units::lemma_units_view(units@);
                        assert(fo.take(0) =~= Seq::<UnitV>::empty());
                    }
                    let mut hh = hash_mix(h, 3);
                    let mut j: usize = 0;
                    while j < units.len()
                        invariant
                            j <= units@.len(),
                            crate::units::units_view(units@) == fo,
                            fo.len() == units@.len(),
                            forall|k: int|
                                0 <= k < units@.len() ==> fo[k] == crate::units::unit_view(
                                    units@[k],
                                ),
                            hh == hash_units_acc(hash_step(h, 3), fo.take(j as int)),
                        decreases units@.len() - j,
                    {
                        let code: u64 = match &units[j] {
                            crate::units::CharOrByte::Char(c) => (*c as u32) as u64,
                            crate::units::CharOrByte::Byte(b) => (*b as u64) + 0x110000,
                        };
                        proof {
                            assert(code == unit_code(fo[j as int]));
                            lemma_hash_units_acc_push(hash_step(h, 3), fo.take(j as int), fo[
                                j as int
                            ]);
                            assert(fo.take(j as int).push(fo[j as int]) =~= fo.take(j + 1));
                        }
                        hh = hash_mix(hh, code);
                        j = j + 1;
                    }
                    proof {
                        assert(fo.take(fo.len() as int) =~= fo);
                        lemma_hash_comps_acc_push(hash_seed(), pv.take(i as int), pv[i as int]);
                        assert(pv.take(i as int).push(pv[i as int]) =~= pv.take(i + 1));
                        assert(pv[i as int] == CompV::Normal(n@));
                    }
                    h = hh;
                },
                other => {
                    let code = rank_of(other) as u64;
                    proof {
                        lemma_hash_comps_acc_push(hash_seed(), pv.take(i as int), pv[i as int]);
                        assert(pv.take(i as int).push(pv[i as int]) =~= pv.take(i + 1));
                    }
                    h = hash_mix(h, code);
                },
            }
            i = i + 1;
        }
        proof {
            assert(pv.take(pv.len() as int) =~= pv);
        }
        h
    }
}

/// Copies a byte string.
pub fn clone_bytes(v: &Vec<u8>) -> (r: Vec<u8>)
    ensures
        r@ == v@,
{
    let mut r: Vec<u8> = Vec::new();
    let mut i: usize = 0;
    while i < v.len()
        invariant
            i <= v@.len(),
            r@ == v@.take(i as int),
        decreases v@.len() - i,
    {
        r.push(v[i]);
        proof {
            assert(v@.take(i as int).push(v@[i as int]) =~= v@.take(i + 1));
        }
        i = i + 1;
    }
    proof {
        assert(v@.take(v@.len() as int) =~= v@);
    }
    r
}

/// Copies a component.
pub fn clone_component(c: &Component) -> (r: Component)
    ensures
        comp_view(r) == comp_view(*c),
{
    match c {
        Component::RootDir => Component::RootDir,
        Component::CurDir => Component::CurDir,
        Component::ParentDir => Component::ParentDir,
        Component::Normal(n) => Component::Normal(clone_bytes(n)),
    }
}

/// Compares two byte strings for literal equality.
pub fn bytes_equal(a: &Vec<u8>, b: &Vec<u8>) -> (r: bool)
    ensures
        r == (a@ == b@),
{
    if a.len() != b.len() {
        return false;
    }
    let mut i: usize = 0;
    while i < a.len()
        invariant
            i <= a@.len(),
            a@.len() == b@.len(),
            forall|k: int| 0 <= k < i ==> a@[k] == b@[k],
        decreases a@.len() - i,
    {
        if a[i] != b[i] {
            return false;
        }
        i = i + 1;
    }
    proof {
        assert(a@ =~= b@);
    }
    true
}

/// Compares two components for literal, case-sensitive equality.
pub fn components_equal(a: &Component, b: &Component) -> (r: bool)
    ensures
        r == (comp_view(*a) == comp_view(*b)),
{
    match (a, b) {
        (Component::RootDir, Component::RootDir) => true,
        (Component::CurDir, Component::CurDir) => true,
        (Component::ParentDir, Component::ParentDir) => true,
        (Component::Normal(x), Component::Normal(y)) => bytes_equal(x, y),
        _ => false,
    }
}

/// One step of the normalizer: a parent-directory marker removes the
/// most recently accumulated component, unless the accumulated result is
/// exactly a bare root marker or a bare current-directory marker, which
/// are never popped, or is empty, which leaves nothing to remove; every
/// other component is appended verbatim.
pub open spec fn norm_step(acc: Seq<CompV>, c: CompV) -> Seq<CompV> {
    if c is Parent {
        if acc.len() == 1 && (acc[0] is Root || acc[0] is Cur) {
            acc
        } else if acc.len() == 0 {
            acc
        } else {
            acc.drop_last()
        }
    } else {
        acc.push(c)
    }
}

/// The normalizer run over a component sequence, left to right, starting
/// from an accumulated prefix.
pub open spec fn norm_from(acc: Seq<CompV>, cs: Seq<CompV>) -> Seq<CompV>
    decreases cs.len(),
{
    if cs.len() == 0 {
        acc
    } else {
        norm_from(norm_step(acc, cs[0]), cs.drop_first())
    }
}

/// The purely textual normal form of a path, with parent-directory
/// segments collapsed against the immediately preceding segment.
pub open spec fn spec_normalize(p: Seq<CompV>) -> Seq<CompV> {
    norm_from(Seq::empty(), p)
}

/// Running the normalizer over one more component continues where it
/// left off.
pub proof fn lemma_norm_from_push(acc: Seq<CompV>, cs: Seq<CompV>, c: CompV)
    ensures
        norm_from(acc, cs.push(c)) == norm_step(norm_from(acc, cs), c),
    decreases cs.len(),
{
    if cs.len() == 0 {
        assert(cs.push(c)[0] == c);
        assert(cs.push(c).drop_first() =~= Seq::<CompV>::empty());
        assert(norm_from(acc, cs) == acc);
        assert(norm_from(norm_step(acc, c), cs.push(c).drop_first()) == norm_step(acc, c));
    } else {
        assert(cs.push(c)[0] == cs[0]);
        assert(cs.push(c).drop_first() =~= cs.drop_first().push(c));
        lemma_norm_from_push(norm_step(acc, cs[0]), cs.drop_first(), c);
    }
}

/// Collapses parent-directory segments against the immediately preceding
/// segment, purely textually: a parent-directory marker removes the most
/// recently accumulated component unless the result so far is exactly a
/// bare root marker or bare current-directory marker, or is empty;
/// every other component is appended verbatim.
pub fn resolve_parents(path: &Vec<Component>) -> (r: Vec<Component>)
    ensures
        comps_view(r@) == spec_normalize(comps_view(path@)),
{
    let ghost pv = comps_view(path@);
    proof {
        lemma_comps_view(path@);
        assert(pv.take(0) =~= Seq::<CompV>::empty());
    }
    let mut res: Vec<Component> = Vec::new();
    let mut i: usize = 0;
    proof {
        assert(comps_view(res@) =~= Seq::<CompV>::empty());
    }
    while i < path.len()
        invariant
            i <= path@.len(),
            pv == comps_view(path@),
            pv.len() == path@.len(),
            forall|k: int| 0 <= k < path@.len() ==> pv[k] == comp_view(path@[k]),
            comps_view(res@) == norm_from(Seq::empty(), pv.take(i as int)),
        decreases path@.len() - i,
    {
        let ghost acc = comps_view(res@);
        proof {
            lemma_norm_from_push(Seq::empty(), pv.take(i as int), pv[i as int]);
            assert(pv.take(i as int).push(pv[i as int]) =~= pv.take(i + 1));
            lemma_comps_view(res@);
        }
        match &path[i] {
            Component::ParentDir => {
                let bare = res.len() == 1 && !matches!(&res[0], Component::Normal(_))
                    && !matches!(&res[0], Component::ParentDir);
                proof {
                    assert(bare <==> (acc.len() == 1 && (acc[0] is Root || acc[0] is Cur)));
                }
                if !bare && res.len() > 0 {
                    res.pop();
                    proof {
                        lemma_comps_view(res@);
                        assert(comps_view(res@) =~= acc.drop_last());
                    }
                }
            },
            c => {
                let cc = clone_component(c);
                proof {
                    lemma_comps_view_push(res@, cc);
                }
                res.push(cc);
            },
        }
        i = i + 1;
    }
    proof {
        assert(pv.take(pv.len() as int) =~= pv);
    }
    res
}

/// True when a path holds no parent-directory marker.
pub open spec fn no_parent(p: Seq<CompV>) -> bool {
    forall|i: int| 0 <= i < p.len() ==> !(p[i] is Parent)
}

/// The normalizer never appends a parent-directory marker, so none
/// survives it.
proof fn lemma_norm_from_no_parent(acc: Seq<CompV>, cs: Seq<CompV>)
    requires
        no_parent(acc),
    ensures
        no_parent(norm_from(acc, cs)),
    decreases cs.len(),
{
    if cs.len() > 0 {
        let acc2 = norm_step(acc, cs[0]);
        assert(no_parent(acc2)) by {
            if cs[0] is Parent {
                assert(forall|k: int| 0 <= k < acc2.len() ==> acc2[k] == acc[k]);
            } else {
                assert(forall|k: int|
                    0 <= k < acc2.len() ==> acc2[k] == (if k < acc.len() {
                        acc[k]
                    } else {
                        cs[0]
                    }));
            }
        }
        lemma_norm_from_no_parent(acc2, cs.drop_first());
    }
}

/// The normal form of a path holds no parent-directory marker: nothing
/// the normalizer produces can still climb anywhere.
pub proof fn lemma_resolve_parents_no_parent(p: Seq<CompV>)
    ensures
        no_parent(spec_normalize(p)),
{
    lemma_norm_from_no_parent(Seq::empty(), p);
}

/// On a path without parent-directory markers the normalizer only
/// appends, so it changes nothing.
proof fn lemma_norm_from_fixed(acc: Seq<CompV>, cs: Seq<CompV>)
    requires
        no_parent(cs),
    ensures
        norm_from(acc, cs) == acc + cs,
    decreases cs.len(),
{
    if cs.len() == 0 {
        assert(acc + cs =~= acc);
    } else {
        assert(!(cs[0] is Parent));
        assert(no_parent(cs.drop_first())) by {
            assert(forall|k: int|
                0 <= k < cs.drop_first().len() ==> cs.drop_first()[k] == cs[k + 1]);
        }
        lemma_norm_from_fixed(acc.push(cs[0]), cs.drop_first());
        assert(acc.push(cs[0]) + cs.drop_first() =~= acc + cs);
    }
}

/// Normalizing is idempotent: the normal form of a normal form is
/// itself.
pub proof fn lemma_resolve_parents_idempotent(p: Seq<CompV>)
    ensures
        spec_normalize(spec_normalize(p)) == spec_normalize(p),
{
    lemma_resolve_parents_no_parent(p);
    lemma_norm_from_fixed(Seq::empty(), spec_normalize(p));
    assert(Seq::<CompV>::empty() + spec_normalize(p) =~= spec_normalize(p));
}

/// A leading root or current-directory marker survives every step of
/// the normalizer.
proof fn lemma_norm_from_marker(acc: Seq<CompV>, cs: Seq<CompV>)
    requires
        acc.len() > 0,
        acc[0] is Root || acc[0] is Cur,
    ensures
        norm_from(acc, cs).len() > 0,
        norm_from(acc, cs)[0] == acc[0],
    decreases cs.len(),
{
    if cs.len() > 0 {
        let acc2 = norm_step(acc, cs[0]);
        assert(acc2.len() > 0 && acc2[0] == acc[0]);
        lemma_norm_from_marker(acc2, cs.drop_first());
    }
}

/// The normal form of a path that starts with a root marker or a
/// current-directory marker still starts with that marker: normalizing
/// never climbs above a leading root or a leading current directory.
pub proof fn lemma_resolve_parents_keeps_marker(p: Seq<CompV>)
    requires
        p.len() > 0,
        p[0] is Root || p[0] is Cur,
    ensures
        spec_normalize(p).len() > 0,
        spec_normalize(p)[0] == p[0],
{
    let acc1 = norm_step(Seq::empty(), p[0]);
    assert(acc1 == Seq::<CompV>::empty().push(p[0]));
    assert(acc1.len() > 0 && acc1[0] == p[0]);
    lemma_norm_from_marker(acc1, p.drop_first());
}

} // verus!

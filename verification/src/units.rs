//! Decomposition of raw path-component byte strings into comparison units.
//!
//! A component is scanned left to right.  At each position the leading
//! byte decides the expected width of a UTF-8 scalar encoding; when the
//! indicated run of bytes is present and well formed, the decoded scalar
//! value is emitted and the scan advances by the run length, otherwise
//! the single leading byte is emitted as a raw unit and the scan advances
//! by one.  Malformed input therefore degrades to byte-wise comparison
//! instead of failing.  Decoded values are then case-folded, which may
//! expand one character into several, and the folded stream is what
//! comparison and hashing are defined over.

use vstd::prelude::*;

verus! {

broadcast use vstd::seq::group_seq_axioms;

use core::cmp::Ordering;
use vstd::utf8::decode_first_scalar;
use vstd::utf8::is_scalar;
use vstd::utf8::length_of_first_scalar;
use vstd::utf8::valid_first_scalar;

/// The atomic comparison unit of a decomposed path component: either one
/// decoded Unicode scalar value or one raw byte that could not be decoded
/// at its position.
#[derive(Clone, Copy, Debug, PartialEq, Eq, Structural)]
pub enum CharOrByte {
    Char(char),
    Byte(u8),
}

/// The mathematical value of a comparison unit: the decoded scalar value
/// as a 32-bit number, or the raw byte.
#[derive(PartialEq, Eq, Structural)]
pub enum UnitV {
    Cp(u32),
    By(u8),
}

/// The value of one unit.
pub open spec fn unit_view(u: CharOrByte) -> UnitV {
    match u {
        CharOrByte::Char(c) => UnitV::Cp(c as u32),
        CharOrByte::Byte(b) => UnitV::By(b),
    }
}

/// The values of a unit sequence.
pub open spec fn units_view(us: Seq<CharOrByte>) -> Seq<UnitV>
    decreases us.len(),
{
    if us.len() == 0 {
        Seq::empty()
    } else {
        seq![unit_view(us[0])] + units_view(us.drop_first())
    }
}

/// Length and contents of the value sequence of a unit sequence.
pub proof fn lemma_units_view(us: Seq<CharOrByte>)
    ensures
        units_view(us).len() == us.len(),
        forall|i: int| 0 <= i < us.len() ==> units_view(us)[i] == unit_view(us[i]),
    decreases us.len(),
{
    if us.len() > 0 {
        lemma_units_view(us.drop_first());
    }
}

/// Extending a unit sequence by one unit extends its value sequence.
pub proof fn lemma_units_view_push(us: Seq<CharOrByte>, u: CharOrByte)
    ensures
        units_view(us.push(u)) == units_view(us).push(unit_view(u)),
{
    lemma_units_view(us);
    lemma_units_view(us.push(u));
    assert(units_view(us.push(u)) =~= units_view(us).push(unit_view(u)));
}

/// Number of bytes consumed by the unit that starts at position `i` of
/// `s`: the width of the well-formed scalar encoding beginning there, or
/// one when the bytes at `i` do not begin one.
pub open spec fn run_len_at(s: Seq<u8>, i: int) -> int {
    if valid_first_scalar(s.subrange(i, s.len() as int)) {
        length_of_first_scalar(s.subrange(i, s.len() as int))
    } else {
        1
    }
}

/// The value of the unit that starts at position `i` of `s`.
pub open spec fn unit_at(s: Seq<u8>, i: int) -> UnitV {
    if valid_first_scalar(s.subrange(i, s.len() as int)) {
        UnitV::Cp(decode_first_scalar(s.subrange(i, s.len() as int)))
    } else {
        UnitV::By(s[i])
    }
}

/// Every position consumes at least one byte and never runs past the end.
pub proof fn lemma_run_len_at(s: Seq<u8>, i: int)
    requires
        0 <= i < s.len(),
    ensures
        1 <= run_len_at(s, i) <= s.len() - i,
{
}

/// The unit values of the suffix of `s` that starts at position `i`.
pub open spec fn units_from(s: Seq<u8>, i: int) -> Seq<UnitV>
    decreases s.len() - i,
    when 0 <= i <= s.len()
{
    if i >= s.len() {
        Seq::empty()
    } else {
        seq![unit_at(s, i)] + units_from(s, i + run_len_at(s, i))
    }
}

/// The full decomposition of a component's bytes, covering every input
/// byte exactly once.
pub open spec fn spec_units(s: Seq<u8>) -> Seq<UnitV> {
    units_from(s, 0)
}

/// The bytes consumed by the units of the suffix of `s` that starts at
/// position `i`: one run per unit, each run adjacent to the next.
pub open spec fn consumed_from(s: Seq<u8>, i: int) -> int
    decreases s.len() - i,
    when 0 <= i <= s.len()
{
    if i >= s.len() {
        0
    } else {
        run_len_at(s, i) + consumed_from(s, i + run_len_at(s, i))
    }
}

/// The decomposition covers every input byte exactly once: the runs
/// the units consume are disjoint, adjacent, and together exhaust the
/// input.
pub proof fn lemma_decomposition_covers(s: Seq<u8>, i: int)
    requires
        0 <= i <= s.len(),
    ensures
        consumed_from(s, i) == s.len() - i,
    decreases s.len() - i,
{
    if i < s.len() {
        lemma_run_len_at(s, i);
        lemma_decomposition_covers(s, i + run_len_at(s, i));
    }
}

/// The suffix of `s` that starts at position `i`.
pub open spec fn suffix_at(s: Seq<u8>, i: int) -> Seq<u8> {
    s.subrange(i, s.len() as int)
}

/// Relies on char::from_u32: it returns the character with the given
/// scalar value, and None exactly when the value is no Unicode scalar
/// value (a surrogate, or above 0x10FFFF).
#[verifier::external_body]
fn char_from_u32(v: u32) -> (r: Option<char>)
    ensures
        r is Some <==> is_scalar(v),
        r matches Some(c) ==> c as u32 == v,
{
    char::from_u32(v)
}

/// Decodes the character whose well-formed scalar encoding starts at
/// position `i` of `s`, together with the encoding's width, or reports
/// that no well-formed encoding starts there.
fn decode_char_at(s: &Vec<u8>, i: usize) -> (r: Option<(char, usize)>)
    requires
        i < s@.len(),
    ensures
        match r {
            Some(p) => {
                &&& valid_first_scalar(suffix_at(s@, i as int))
                &&& p.0 as u32 == decode_first_scalar(suffix_at(s@, i as int))
                &&& p.1 == length_of_first_scalar(suffix_at(s@, i as int))
                &&& 1 <= p.1 <= s@.len() - i
            },
            None => !valid_first_scalar(suffix_at(s@, i as int)),
        },
{
    let ghost rest = suffix_at(s@, i as int);
    proof {
        assert(rest.len() == s@.len() - i);
        assert(forall|k: int| 0 <= k < rest.len() ==> rest[k] == s@[i + k]);
    }
    let b0 = s[i];
    let avail = s.len() - i;
    if b0 < 0x80 {
        proof {
            assert((b0 & 0x7f) == b0) by (bit_vector)
                requires
                    b0 < 0x80,
            ;
        }
        let v = b0 as u32;
        match char_from_u32(v) {
            Some(c) => {
                proof {
                    assert(valid_first_scalar(rest));
                    assert(decode_first_scalar(rest) == v);
                }
                Some((c, 1))
            },
            None => vstd::pervasive::unreached(),
        }
    } else if 0xc0 <= b0 && b0 <= 0xdf {
        if avail >= 2 {
            let b1 = s[i + 1];
            if 0x80 <= b1 && b1 <= 0xbf {
                let v: u32 = (((b0 & 0x1f) as u32) << 6) | ((b1 & 0x3f) as u32);
                if v >= 0x80 {
                    proof {
                        assert(((((b0 & 0x1f) as u32) << 6) | ((b1 & 0x3f) as u32)) <= 0x7ff)
                            by (bit_vector);
                    }
                    match char_from_u32(v) {
                        Some(c) => {
                            proof {
                                assert(valid_first_scalar(rest));
                                assert(decode_first_scalar(rest) == v);
                            }
                            Some((c, 2))
                        },
                        None => vstd::pervasive::unreached(),
                    }
                } else {
                    None
                }
            } else {
                None
            }
        } else {
            None
        }
    } else if 0xe0 <= b0 && b0 <= 0xef {
        if avail >= 3 {
            let b1 = s[i + 1];
            let b2 = s[i + 2];
            if 0x80 <= b1 && b1 <= 0xbf && 0x80 <= b2 && b2 <= 0xbf {
                let v: u32 = ((((b0 & 0x0f) as u32) << 12) | (((b1 & 0x3f) as u32) << 6)) | ((b2
                    & 0x3f) as u32);
                if v >= 0x800 && !(0xd800 <= v && v <= 0xdfff) {
                    proof {
                        assert(((((b0 & 0x0f) as u32) << 12) | (((b1 & 0x3f) as u32) << 6)) | ((b2
                            & 0x3f) as u32) <= 0xffff) by (bit_vector);
                    }
                    match char_from_u32(v) {
                        Some(c) => {
                            proof {
                                assert(valid_first_scalar(rest));
                                assert(decode_first_scalar(rest) == v);
                            }
                            Some((c, 3))
                        },
                        None => vstd::pervasive::unreached(),
                    }
                } else {
                    None
                }
            } else {
                None
            }
        } else {
            None
        }
    } else if 0xf0 <= b0 && b0 <= 0xf7 {
        if avail >= 4 {
            let b1 = s[i + 1];
            let b2 = s[i + 2];
            let b3 = s[i + 3];
            if 0x80 <= b1 && b1 <= 0xbf && 0x80 <= b2 && b2 <= 0xbf && 0x80 <= b3 && b3 <= 0xbf {
                let v: u32 = (((((b0 & 0x07) as u32) << 18) | (((b1 & 0x3f) as u32) << 12)) | (((b2
                    & 0x3f) as u32) << 6)) | ((b3 & 0x3f) as u32);
                if 0x10000 <= v && v <= 0x10ffff {
                    match char_from_u32(v) {
                        Some(c) => {
                            proof {
                                assert(valid_first_scalar(rest));
                                assert(decode_first_scalar(rest) == v);
                            }
                            Some((c, 4))
                        },
                        None => vstd::pervasive::unreached(),
                    }
                } else {
                    None
                }
            } else {
                None
            }
        } else {
            None
        }
    } else {
        None
    }
}

/// Decomposes a raw path-component byte string into its sequence of
/// comparison units, one per decoded scalar value or undecodable byte.
pub fn osstr_chars(s: &Vec<u8>) -> (r: Vec<CharOrByte>)
    ensures
        units_view(r@) == spec_units(s@),
{
    let mut r: Vec<CharOrByte> = Vec::new();
    let mut i: usize = 0;
    proof {
        assert(units_view(r@) + units_from(s@, 0) =~= units_from(s@, 0));
    }
    while i < s.len()
        invariant
            i <= s@.len(),
            spec_units(s@) == units_view(r@) + units_from(s@, i as int),
        decreases s@.len() - i,
    {
        let (unit, adv) = match decode_char_at(s, i) {
            Some((c, w)) => (CharOrByte::Char(c), w),
            None => (CharOrByte::Byte(s[i]), 1),
        };
        proof {
            assert(unit_view(unit) == unit_at(s@, i as int));
            assert(adv == run_len_at(s@, i as int));
            lemma_units_view_push(r@, unit);
            assert(units_view(r@).push(unit_at(s@, i as int)) + units_from(s@, i + adv) =~= units_view(
                r@,
            ) + (seq![unit_at(s@, i as int)] + units_from(s@, i + adv)));
        }
        r.push(unit);
        i = i + adv;
    }
    proof {
        assert(units_view(r@) + units_from(s@, i as int) =~= units_view(r@));
    }
    r
}

/// The scalar values of a character sequence.
pub open spec fn scalars_of(cs: Seq<char>) -> Seq<u32>
    decreases cs.len(),
{
    if cs.len() == 0 {
        Seq::empty()
    } else {
        seq![cs[0] as u32] + scalars_of(cs.drop_first())
    }
}

/// Length and contents of the scalar values of a character sequence.
pub proof fn lemma_scalars_of(cs: Seq<char>)
    ensures
        scalars_of(cs).len() == cs.len(),
        forall|i: int| 0 <= i < cs.len() ==> scalars_of(cs)[i] == cs[i] as u32,
    decreases cs.len(),
{
    if cs.len() > 0 {
        lemma_scalars_of(cs.drop_first());
    }
}

/// What full Unicode lowercasing yields for the character with the given
/// scalar value; the mapping may expand one character into several.
pub uninterp spec fn fold_scalar(v: u32) -> Seq<u32>;

/// Relies on char::to_lowercase: it yields the lowercase mapping of the
/// character as one or more characters, a function of the character
/// alone.
#[verifier::external_body]
fn char_lowercase(c: char) -> (r: Vec<char>)
    ensures
        scalars_of(r@) == fold_scalar(c as u32),
        r@.len() >= 1,
{
    c.to_lowercase().collect()
}

/// A scalar-value sequence seen as a sequence of unit values.
pub open spec fn cps_as_units(vs: Seq<u32>) -> Seq<UnitV>
    decreases vs.len(),
{
    if vs.len() == 0 {
        Seq::empty()
    } else {
        seq![UnitV::Cp(vs[0])] + cps_as_units(vs.drop_first())
    }
}

/// Length and contents of a scalar-value sequence seen as unit values.
pub proof fn lemma_cps_as_units(vs: Seq<u32>)
    ensures
        cps_as_units(vs).len() == vs.len(),
        forall|i: int| 0 <= i < vs.len() ==> cps_as_units(vs)[i] == UnitV::Cp(vs[i]),
    decreases vs.len(),
{
    if vs.len() > 0 {
        lemma_cps_as_units(vs.drop_first());
    }
}

/// The folded stream contributed by one unit value: the lowercase
/// mapping of a decoded scalar value, or the raw byte passed through
/// unchanged.
pub open spec fn fold_unit(u: UnitV) -> Seq<UnitV> {
    match u {
        UnitV::Cp(v) => cps_as_units(fold_scalar(v)),
        UnitV::By(b) => seq![UnitV::By(b)],
    }
}

/// The case-folded stream of a unit-value sequence, flattened in order.
pub open spec fn fold_units(us: Seq<UnitV>) -> Seq<UnitV>
    decreases us.len(),
{
    if us.len() == 0 {
        Seq::empty()
    } else {
        fold_unit(us[0]) + fold_units(us.drop_first())
    }
}

/// The case-folded unit stream of a raw component byte string: the
/// stream that comparison and hashing are defined over.
pub open spec fn folded_of(s: Seq<u8>) -> Seq<UnitV> {
    fold_units(spec_units(s))
}

/// Folding distributes over extending a unit-value sequence by one unit.
pub proof fn lemma_fold_units_push(us: Seq<UnitV>, u: UnitV)
    ensures
        fold_units(us.push(u)) == fold_units(us) + fold_unit(u),
    decreases us.len(),
{
    if us.len() == 0 {
        let p = us.push(u);
        assert(p.len() == 1);
        assert(p[0] == u);
        assert(p.drop_first() =~= Seq::<UnitV>::empty());
        assert(fold_units(p) == fold_unit(u) + fold_units(Seq::<UnitV>::empty()));
        assert(fold_unit(u) + Seq::<UnitV>::empty() =~= fold_unit(u));
        assert(fold_units(us) + fold_unit(u) =~= fold_unit(u));
    } else {
        assert(us.push(u).drop_first() =~= us.drop_first().push(u));
        lemma_fold_units_push(us.drop_first(), u);
        assert(fold_units(us.push(u)) =~= fold_units(us) + fold_unit(u));
    }
}

/// Decomposes a component's bytes and case-folds every decoded scalar
/// value, flattening the result into one unit stream; raw bytes pass
/// through unfolded.
pub fn osstr_chars_lowercased(s: &Vec<u8>) -> (r: Vec<CharOrByte>)
    ensures
        units_view(r@) == folded_of(s@),
{
    let units = osstr_chars(s);
    let ghost uv = units_view(units@);
    proof {
        lemma_units_view(units@);
    }
    let mut r: Vec<CharOrByte> = Vec::new();
    let mut i: usize = 0;
    proof {
        assert(units_view(r@) =~= fold_units(uv.take(0)));
    }
    while i < units.len()
        invariant
            i <= units@.len(),
            uv == units_view(units@),
            uv == spec_units(s@),
            uv.len() == units@.len(),
            forall|k: int| 0 <= k < units@.len() ==> uv[k] == unit_view(units@[k]),
            units_view(r@) == fold_units(uv.take(i as int)),
        decreases units@.len() - i,
    {
        let u = units[i];
        match u {
            CharOrByte::Char(c) => {
                let ghost fs = fold_scalar(c as u32);
                let lcs = char_lowercase(c);
                proof {
                    lemma_scalars_of(lcs@);
                    lemma_cps_as_units(fs);
                    assert(units_view(r@) + cps_as_units(fs).take(0) =~= units_view(r@));
                }
                let mut j: usize = 0;
                while j < lcs.len()
                    invariant
                        j <= lcs@.len(),
                        scalars_of(lcs@) == fs,
                        lcs@.len() == fs.len(),
                        forall|k: int| 0 <= k < lcs@.len() ==> fs[k] == lcs@[k] as u32,
                        cps_as_units(fs).len() == fs.len(),
                        forall|k: int|
                            0 <= k < fs.len() ==> cps_as_units(fs)[k] == UnitV::Cp(fs[k]),
                        units_view(r@) == fold_units(uv.take(i as int)) + cps_as_units(fs).take(
                            j as int,
                        ),
                    decreases lcs@.len() - j,
                {
                    let lc = lcs[j];
                    proof {
                        let m = cps_as_units(fs);
                        lemma_units_view_push(r@, CharOrByte::Char(lc));
                        assert(m[j as int] == unit_view(CharOrByte::Char(lc)));
                        assert(m.take(j + 1) =~= m.take(j as int).push(m[j as int]));
                        assert((fold_units(uv.take(i as int)) + m.take(j as int)).push(m[j as int])
                            =~= fold_units(uv.take(i as int)) + m.take(j + 1));
                    }
                    r.push(CharOrByte::Char(lc));
                    j = j + 1;
                }
                proof {
                    let m = cps_as_units(fs);
                    assert(m.take(m.len() as int) =~= m);
                    lemma_fold_units_push(uv.take(i as int), uv[i as int]);
                    assert(uv.take(i as int).push(uv[i as int]) =~= uv.take(i + 1));
                    assert(uv[i as int] == UnitV::Cp(c as u32));
                    assert(fold_unit(uv[i as int]) == m);
                }
            },
            CharOrByte::Byte(b) => {
                proof {
                    lemma_units_view_push(r@, CharOrByte::Byte(b));
                    lemma_fold_units_push(uv.take(i as int), uv[i as int]);
                    assert(uv.take(i as int).push(uv[i as int]) =~= uv.take(i + 1));
                    assert(uv[i as int] == UnitV::By(b));
                    assert(fold_units(uv.take(i as int)).push(UnitV::By(b)) =~= fold_units(uv.take(
                        i as int,
                    )) + fold_unit(uv[i as int]));
                }
                r.push(CharOrByte::Byte(b));
            },
        }
        i = i + 1;
    }
    proof {
        assert(uv.take(uv.len() as int) =~= uv);
    }
    r
}

/// Order of two unit values: decoded scalar values by their number, raw
/// bytes by their value, and a decoded scalar value before a raw byte at
/// the same stream position.
pub open spec fn unit_cmp(a: UnitV, b: UnitV) -> Ordering {
    match (a, b) {
        (UnitV::Cp(x), UnitV::Cp(y)) => if x < y {
            Ordering::Less
        } else if x == y {
            Ordering::Equal
        } else {
            Ordering::Greater
        },
        (UnitV::By(x), UnitV::By(y)) => if x < y {
            Ordering::Less
        } else if x == y {
            Ordering::Equal
        } else {
            Ordering::Greater
        },
        (UnitV::Cp(_), UnitV::By(_)) => Ordering::Less,
        (UnitV::By(_), UnitV::Cp(_)) => Ordering::Greater,
    }
}

/// Lexicographic order of two unit streams: the first differing unit
/// decides, and an exhausted stream sorts before a longer one.
pub open spec fn lex_cmp_units(a: Seq<UnitV>, b: Seq<UnitV>) -> Ordering
    decreases a.len(),
{
    if a.len() == 0 && b.len() == 0 {
        Ordering::Equal
    } else if a.len() == 0 {
        Ordering::Less
    } else if b.len() == 0 {
        Ordering::Greater
    } else if unit_cmp(a[0], b[0]) != Ordering::Equal {
        unit_cmp(a[0], b[0])
    } else {
        lex_cmp_units(a.drop_first(), b.drop_first())
    }
}

/// Case-insensitive order of two raw component byte strings: the
/// lexicographic order of their case-folded unit streams.
pub open spec fn name_cmp(a: Seq<u8>, b: Seq<u8>) -> Ordering {
    lex_cmp_units(folded_of(a), folded_of(b))
}

/// The opposite of an ordering.
pub open spec fn flip_ord(o: Ordering) -> Ordering {
    match o {
        Ordering::Less => Ordering::Greater,
        Ordering::Equal => Ordering::Equal,
        Ordering::Greater => Ordering::Less,
    }
}

/// Two unit values order as equal exactly when they are the same value.
pub proof fn lemma_unit_cmp_eq(a: UnitV, b: UnitV)
    ensures
        unit_cmp(a, b) == Ordering::Equal <==> a == b,
{
}

/// Swapping the operands of the unit order flips its result.
pub proof fn lemma_unit_cmp_flip(a: UnitV, b: UnitV)
    ensures
        unit_cmp(b, a) == flip_ord(unit_cmp(a, b)),
{
}

/// The unit order is transitive.
pub proof fn lemma_unit_cmp_trans(a: UnitV, b: UnitV, c: UnitV)
    requires
        unit_cmp(a, b) != Ordering::Greater,
        unit_cmp(b, c) != Ordering::Greater,
    ensures
        unit_cmp(a, c) != Ordering::Greater,
        unit_cmp(a, b) == Ordering::Less || unit_cmp(b, c) == Ordering::Less ==> unit_cmp(a, c)
            == Ordering::Less,
{
}

/// Two unit streams order as equal exactly when they are the same
/// stream.
pub proof fn lemma_lex_cmp_eq(a: Seq<UnitV>, b: Seq<UnitV>)
    ensures
        lex_cmp_units(a, b) == Ordering::Equal <==> a == b,
    decreases a.len(),
{
    if a.len() != 0 && b.len() != 0 {
        lemma_unit_cmp_eq(a[0], b[0]);
        lemma_lex_cmp_eq(a.drop_first(), b.drop_first());
        if lex_cmp_units(a, b) == Ordering::Equal {
            assert(a =~= seq![a[0]] + a.drop_first());
            assert(b =~= seq![b[0]] + b.drop_first());
        }
        if a == b {
            assert(a.drop_first() =~= b.drop_first());
        }
    } else {
        if a.len() == 0 && b.len() == 0 {
            assert(a =~= b);
        }
    }
}

/// Swapping the operands of the stream order flips its result.
pub proof fn lemma_lex_cmp_flip(a: Seq<UnitV>, b: Seq<UnitV>)
    ensures
        lex_cmp_units(b, a) == flip_ord(lex_cmp_units(a, b)),
    decreases a.len(),
{
    if a.len() != 0 && b.len() != 0 {
        lemma_unit_cmp_flip(a[0], b[0]);
        lemma_lex_cmp_flip(a.drop_first(), b.drop_first());
    }
}

/// The stream order is transitive.
pub proof fn lemma_lex_cmp_trans(a: Seq<UnitV>, b: Seq<UnitV>, c: Seq<UnitV>)
    requires
        lex_cmp_units(a, b) != Ordering::Greater,
        lex_cmp_units(b, c) != Ordering::Greater,
    ensures
        lex_cmp_units(a, c) != Ordering::Greater,
        lex_cmp_units(a, b) == Ordering::Less || lex_cmp_units(b, c) == Ordering::Less
            ==> lex_cmp_units(a, c) == Ordering::Less,
    decreases a.len() + b.len() + c.len(),
{
    if a.len() == 0 {
        if c.len() != 0 && b.len() != 0 {
        }
    } else {
        if b.len() != 0 && c.len() != 0 {
            lemma_unit_cmp_eq(a[0], b[0]);
            lemma_unit_cmp_eq(b[0], c[0]);
            lemma_unit_cmp_eq(a[0], c[0]);
            lemma_unit_cmp_trans(a[0], b[0], c[0]);
            if unit_cmp(a[0], b[0]) == Ordering::Equal && unit_cmp(b[0], c[0])
                == Ordering::Equal {
                lemma_lex_cmp_trans(a.drop_first(), b.drop_first(), c.drop_first());
            }
        }
    }
}

/// Compares two comparison units with the tie-break rule of the unit
/// order.
fn unit_compare(a: CharOrByte, b: CharOrByte) -> (o: Ordering)
    ensures
        o == unit_cmp(unit_view(a), unit_view(b)),
{
    match (a, b) {
        (CharOrByte::Char(x), CharOrByte::Char(y)) => {
            let xv = x as u32;
            let yv = y as u32;
            if xv < yv {
                Ordering::Less
            } else if xv == yv {
                Ordering::Equal
            } else {
                Ordering::Greater
            }
        },
        (CharOrByte::Byte(x), CharOrByte::Byte(y)) => {
            if x < y {
                Ordering::Less
            } else if x == y {
                Ordering::Equal
            } else {
                Ordering::Greater
            }
        },
        (CharOrByte::Char(_), CharOrByte::Byte(_)) => Ordering::Less,
        (CharOrByte::Byte(_), CharOrByte::Char(_)) => Ordering::Greater,
    }
}

/// Compares two raw component byte strings case-insensitively by
/// streaming their case-folded units against each other; the comparison
/// is length-changing-safe because both streams are fully folded.
pub fn compare_osstr_case_insensitive(left: &Vec<u8>, right: &Vec<u8>) -> (o: Ordering)
    ensures
        o == name_cmp(left@, right@),
{
    let lf = osstr_chars_lowercased(left);
    let rf = osstr_chars_lowercased(right);
    let ghost la = units_view(lf@);
    let ghost ra = units_view(rf@);
    proof {
        lemma_units_view(lf@);
        lemma_units_view(rf@);
        assert(la.skip(0) =~= la);
        assert(ra.skip(0) =~= ra);
    }
    let mut i: usize = 0;
    while i < lf.len() && i < rf.len()
        invariant
            i <= lf@.len(),
            i <= rf@.len(),
            la == units_view(lf@),
            ra == units_view(rf@),
            la.len() == lf@.len(),
            ra.len() == rf@.len(),
            forall|k: int| 0 <= k < lf@.len() ==> la[k] == unit_view(lf@[k]),
            forall|k: int| 0 <= k < rf@.len() ==> ra[k] == unit_view(rf@[k]),
            name_cmp(left@, right@) == lex_cmp_units(la.skip(i as int), ra.skip(i as int)),
        decreases lf@.len() - i,
    {
        let o = unit_compare(lf[i], rf[i]);
        proof {
            assert(la.skip(i as int)[0] == la[i as int]);
            assert(ra.skip(i as int)[0] == ra[i as int]);
        }
        match o {
            Ordering::Equal => {
                proof {
                    assert(la.skip(i as int).drop_first() =~= la.skip(i + 1));
                    assert(ra.skip(i as int).drop_first() =~= ra.skip(i + 1));
                }
            },
            _ => {
                return o;
            },
        }
        i = i + 1;
    }
    if i < rf.len() {
        proof {
            assert(la.skip(i as int).len() == 0);
            assert(ra.skip(i as int).len() > 0);
        }
        Ordering::Less
    } else if i < lf.len() {
        Ordering::Greater
    } else {
        proof {
            assert(la.skip(i as int).len() == 0);
            assert(ra.skip(i as int).len() == 0);
        }
        Ordering::Equal
    }
}

} // verus!

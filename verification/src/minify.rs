//! The decisions of the input-minification loop: artifact files are
//! named `<complexity>--<hash>.<ext>`, and each round re-runs the
//! target on the lowest-complexity file found so far. The file-name
//! parsing and the selection are decided here; listing directories and
//! spawning the target are the caller's business.

use vstd::prelude::*;

verus! {

/// The numeric complexity parsed from the front of an artifact file
/// name: an integer part and the fraction's digit values.
pub struct Complexity {
    pub int_part: u64,
    pub frac: Vec<u8>,
}

pub open spec fn is_digit(b: u8) -> bool {
    48 <= b <= 57
}

/// The integer value of a digit string, most significant first.
pub open spec fn digits_val(s: Seq<u8>) -> int
    decreases s.len(),
{
    if s.len() == 0 {
        0int
    } else {
        digits_val(s.drop_last()) * 10 + (s.last() - 48)
    }
}

/// A well-formed decimal: one or more digits, optionally followed by a
/// point and further digits.
pub open spec fn wf_decimal(s: Seq<u8>, k: int) -> bool {
    &&& 0 < k <= s.len()
    &&& (k == s.len() || s[k] == 46)
    &&& forall|j: int| 0 <= j < k ==> is_digit(#[trigger] s[j])
    &&& forall|j: int| k < j < s.len() ==> is_digit(#[trigger] s[j])
}

/// Digit `i` of a fraction, with the fraction extended by zeros.
pub open spec fn frac_digit(s: Seq<u8>, i: int) -> u8 {
    if 0 <= i < s.len() {
        s[i]
    } else {
        0
    }
}

/// The fractions compare as at-most from position `i` on, digit by
/// digit, with the shorter side extended by zeros.
pub open spec fn frac_le_from(x: Seq<u8>, y: Seq<u8>, i: int) -> bool
    decreases x.len() + y.len() - i,
    when 0 <= i
{
    if i >= x.len() && i >= y.len() {
        true
    } else {
        frac_digit(x, i) < frac_digit(y, i) || (frac_digit(x, i) == frac_digit(y, i)
            && frac_le_from(x, y, i + 1))
    }
}

/// One fraction is at most the other, comparing digit by digit with
/// the shorter side extended by zeros.
pub open spec fn frac_le(x: Seq<u8>, y: Seq<u8>) -> bool {
    frac_le_from(x, y, 0)
}

/// One complexity is at most the other.
pub open spec fn cplx_le(a: Complexity, b: Complexity) -> bool {
    pair_le(a.int_part, a.frac@, b.int_part, b.frac@)
}

/// One (integer, fraction) complexity is at most the other.
pub open spec fn pair_le(i1: u64, f1: Seq<u8>, i2: u64, f2: Seq<u8>) -> bool {
    i1 < i2 || (i1 == i2 && frac_le(f1, f2))
}

/// The stem parses as the given integer part and fraction digits.
pub open spec fn parses_to(s: Seq<u8>, ip: u64, fr: Seq<u8>) -> bool {
    exists|k: int|
        {
            &&& #[trigger] wf_decimal(s, k)
            &&& ip == digits_val(s.subrange(0, k))
            &&& fr == if k == s.len() {
                Seq::<u8>::empty()
            } else {
                s.subrange(k + 1, s.len() as int).map_values(|b: u8| (b - 48) as u8)
            }
        }
}

/// A stem parses one way only: the point's position is forced, and
/// with it both parts.
pub proof fn lemma_parses_unique(s: Seq<u8>, i1: u64, f1: Seq<u8>, i2: u64, f2: Seq<u8>)
    requires
        parses_to(s, i1, f1),
        parses_to(s, i2, f2),
    ensures
        i1 == i2,
        f1 == f2,
{
    let k1 = choose|k: int| #[trigger] wf_decimal(s, k) && i1 == digits_val(s.subrange(0, k)) && f1
        == if k == s.len() {
        Seq::<u8>::empty()
    } else {
        s.subrange(k + 1, s.len() as int).map_values(|b: u8| (b - 48) as u8)
    };
    let k2 = choose|k: int| #[trigger] wf_decimal(s, k) && i2 == digits_val(s.subrange(0, k)) && f2
        == if k == s.len() {
        Seq::<u8>::empty()
    } else {
        s.subrange(k + 1, s.len() as int).map_values(|b: u8| (b - 48) as u8)
    };
    if k1 < k2 {
        assert(is_digit(s[k1]));
        assert(s[k1] == 46);
    }
    if k2 < k1 {
        assert(is_digit(s[k2]));
        assert(s[k2] == 46);
    }
}

proof fn lemma_frac_le_from_total(x: Seq<u8>, y: Seq<u8>, i: int)
    requires
        0 <= i,
    ensures
        frac_le_from(x, y, i) || frac_le_from(y, x, i),
    decreases x.len() + y.len() - i,
{
    if !(i >= x.len() && i >= y.len()) {
        lemma_frac_le_from_total(x, y, i + 1);
    }
}

proof fn lemma_frac_le_total(x: Seq<u8>, y: Seq<u8>)
    ensures
        frac_le(x, y) || frac_le(y, x),
{
    lemma_frac_le_from_total(x, y, 0);
}

/// At least one of two complexities is at most the other.
pub proof fn lemma_cplx_le_total(a: Complexity, b: Complexity)
    ensures
        cplx_le(a, b) || cplx_le(b, a),
{
    lemma_frac_le_total(a.frac@, b.frac@);
}

proof fn lemma_frac_le_from_refl(f: Seq<u8>, i: int)
    requires
        0 <= i,
    ensures
        frac_le_from(f, f, i),
    decreases f.len() - i,
{
    if i < f.len() {
        lemma_frac_le_from_refl(f, i + 1);
    }
}

proof fn lemma_frac_le_from_trans(x: Seq<u8>, y: Seq<u8>, z: Seq<u8>, i: int)
    requires
        0 <= i,
        frac_le_from(x, y, i),
        frac_le_from(y, z, i),
    ensures
        frac_le_from(x, z, i),
    decreases x.len() + y.len() + z.len() - i,
{
    if !(i >= x.len() && i >= y.len() && i >= z.len()) {
        if frac_digit(x, i) == frac_digit(y, i) && frac_digit(y, i) == frac_digit(z, i) {
            lemma_frac_le_from_trans(x, y, z, i + 1);
        }
    }
}

/// The complexity order is transitive.
pub proof fn lemma_pair_le_trans(
    i1: u64,
    f1: Seq<u8>,
    i2: u64,
    f2: Seq<u8>,
    i3: u64,
    f3: Seq<u8>,
)
    requires
        pair_le(i1, f1, i2, f2),
        pair_le(i2, f2, i3, f3),
    ensures
        pair_le(i1, f1, i3, f3),
{
    if i1 == i2 && i2 == i3 {
        lemma_frac_le_from_trans(f1, f2, f3, 0);
    }
}

/// The complexity order is total.
pub proof fn lemma_pair_le_total(i1: u64, f1: Seq<u8>, i2: u64, f2: Seq<u8>)
    ensures
        pair_le(i1, f1, i2, f2) || pair_le(i2, f2, i1, f1),
{
    lemma_frac_le_from_total(f1, f2, 0);
}

/// Is one fraction at most the other?
fn frac_le_exec(x: &[u8], y: &[u8]) -> (r: bool)
    ensures
        r == frac_le(x@, y@),
{
    let n = if x.len() >= y.len() {
        x.len()
    } else {
        y.len()
    };
    let mut i: usize = 0;
    while i < n
        invariant
            n == if x@.len() >= y@.len() {
                x@.len()
            } else {
                y@.len()
            },
            i <= n,
            frac_le_from(x@, y@, i as int) == frac_le(x@, y@),
        decreases n - i,
    {
        let dx: u8 = if i < x.len() {
            x[i]
        } else {
            0
        };
        let dy: u8 = if i < y.len() {
            y[i]
        } else {
            0
        };
        proof {
            assert(dx == frac_digit(x@, i as int));
            assert(dy == frac_digit(y@, i as int));
        }
        if dx < dy {
            return true;
        }
        if dx > dy {
            return false;
        }
        i = i + 1;
    }
    true
}

/// Is complexity `a` at most complexity `b`?
pub fn cplx_le_exec(a: &Complexity, b: &Complexity) -> (r: bool)
    ensures
        r == cplx_le(*a, *b),
{
    if a.int_part < b.int_part {
        true
    } else if a.int_part > b.int_part {
        false
    } else {
        frac_le_exec(a.frac.as_slice(), b.frac.as_slice())
    }
}

/// Parse the decimal number at the front of a file stem: the digits
/// before the point as an integer, the digits after it as the
/// fraction. Absent exactly when the stem is not a decimal or its
/// integer part overflows.
pub fn parse_decimal(s: &[u8]) -> (r: Option<Complexity>)
    ensures
        match r {
            Some(c) => parses_to(s@, c.int_part, c.frac@),
            None => (forall|k: int| !wf_decimal(s@, k)) || (exists|k: int|
                #[trigger] wf_decimal(s@, k) && digits_val(s@.subrange(0, k)) > u64::MAX),
        },
{
    let mut i: usize = 0;
    let mut int_part: u64 = 0;
    if s.len() == 0 || !(48 <= s[0] && s[0] <= 57) {
        proof {
            assert forall|k: int| !wf_decimal(s@, k) by {
                if 0 < k <= s@.len() {
                    assert(!is_digit(s@[0]) || s@.len() == 0);
                }
            }
        }
        return None;
    }
    while i < s.len() && 48 <= s[i] && s[i] <= 57
        invariant
            i <= s@.len(),
            forall|j: int| 0 <= j < i ==> is_digit(#[trigger] s@[j]),
            int_part == digits_val(s@.subrange(0, i as int)),
            digits_val(s@.subrange(0, i as int)) <= u64::MAX,
        decreases s@.len() - i,
    {
        let d = s[i];
        proof {
            assert(s@.subrange(0, i as int + 1).drop_last() =~= s@.subrange(0, i as int));
            assert(s@.subrange(0, i as int + 1).last() == s@[i as int]);
        }
        if int_part > (u64::MAX - ((d - 48) as u64)) / 10 {
            proof {
                assert(digits_val(s@.subrange(0, i as int + 1)) > u64::MAX);
                assert forall|k: int| #[trigger] wf_decimal(s@, k) implies digits_val(
                    s@.subrange(0, k),
                ) > u64::MAX by {
                    assert(k > i as int) by {
                        if k <= i {
                            assert(is_digit(s@[k]) || k == s@.len());
                        }
                    }
                    lemma_digits_val_prefix_le(s@.subrange(0, k), i as int + 1);
                    assert(s@.subrange(0, k).subrange(0, i as int + 1) =~= s@.subrange(
                        0,
                        i as int + 1,
                    ));
                }
            }
            return None;
        }
        int_part = int_part * 10 + ((d - 48) as u64);
        i = i + 1;
    }
    let k = i;
    proof {
        assert(0 < k <= s@.len());
    }
    if k == s.len() {
        proof {
            assert(wf_decimal(s@, k as int));
        }
        return Some(Complexity { int_part, frac: Vec::new() });
    }
    if s[k] != 46 {
        proof {
            assert forall|kk: int| !wf_decimal(s@, kk) by {
                if wf_decimal(s@, kk) {
                    if kk < k {
                        // The spot before the point would have to be a
                        // digit and a point at once.
                        assert(is_digit(s@[kk]));
                        assert(s@[kk] == 46);
                    } else if kk == k {
                        assert(s@[kk] == 46);
                    } else {
                        // Everything before the point would be a digit,
                        // including the non-digit that ended the scan.
                        assert(is_digit(s@[k as int]));
                    }
                }
            }
        }
        return None;
    }
    let mut frac: Vec<u8> = Vec::new();
    let mut j: usize = k + 1;
    while j < s.len()
        invariant
            0 < k < j <= s@.len(),
            k < s@.len(),
            s@[k as int] == 46,
            forall|t: int| 0 <= t < k ==> is_digit(#[trigger] s@[t]),
            forall|t: int| k < t < j ==> is_digit(#[trigger] s@[t]),
            frac@ == s@.subrange(k as int + 1, j as int).map_values(|b: u8| (b - 48) as u8),
        decreases s@.len() - j,
    {
        let d = s[j];
        if !(48 <= d && d <= 57) {
            proof {
                assert forall|kk: int| !wf_decimal(s@, kk) by {
                    if wf_decimal(s@, kk) {
                        if kk < k {
                            assert(is_digit(s@[kk]));
                            assert(s@[kk] == 46);
                        } else if kk == k {
                            // Everything after the point would be a
                            // digit, including the byte that ended the
                            // scan.
                            assert(is_digit(s@[j as int]));
                        } else {
                            // Everything before the point would be a
                            // digit, including the point itself.
                            assert(is_digit(s@[k as int]));
                        }
                    }
                }
            }
            return None;
        }
        frac.push(d - 48);
        proof {
            assert(frac@ =~= s@.subrange(k as int + 1, j as int + 1).map_values(
                |b: u8| (b - 48) as u8,
            ));
        }
        j = j + 1;
    }
    proof {
        assert(wf_decimal(s@, k as int));
        assert(s@.subrange(k as int + 1, s@.len() as int) =~= s@.subrange(
            k as int + 1,
            j as int,
        ));
    }
    Some(Complexity { int_part, frac })
}

/// A digit string's value bounds the value of any of its prefixes.
proof fn lemma_digits_val_prefix_le(s: Seq<u8>, k: int)
    requires
        0 <= k <= s.len(),
        forall|j: int| 0 <= j < s.len() ==> is_digit(#[trigger] s[j]),
    ensures
        digits_val(s) >= digits_val(s.subrange(0, k)),
        digits_val(s) >= 0,
    decreases s.len(),
{
    if s.len() > 0 {
        lemma_digits_val_prefix_le(s.drop_last(), if k < s.len() {
            k
        } else {
            k - 1
        });
        assert(s.drop_last() =~= s.subrange(0, s.len() - 1));
        if k < s.len() {
            assert(s.drop_last().subrange(0, k) =~= s.subrange(0, k));
        } else {
            assert(s.subrange(0, k) =~= s);
        }
    } else {
        assert(s.subrange(0, k) =~= s);
    }
}

/// Position `e` ends the stem of `s`: it is the last point, or the
/// whole length when there is none.
pub open spec fn is_stem_end(s: Seq<u8>, e: int) -> bool {
    &&& 0 <= e <= s.len()
    &&& (e == s.len() ==> forall|j: int| 0 <= j < s.len() ==> s[j] != 46)
    &&& (e < s.len() ==> s[e] == 46 && forall|j: int| e < j < s.len() ==> s[j] != 46)
}

/// A name has one stem end only.
pub proof fn lemma_stem_end_unique(s: Seq<u8>, e1: int, e2: int)
    requires
        is_stem_end(s, e1),
        is_stem_end(s, e2),
    ensures
        e1 == e2,
{
    if e1 < e2 {
        if e2 == s.len() {
            assert(s[e1] == 46);
            assert(s[e1] != 46);
        } else {
            assert(s[e2] == 46);
            assert(s[e2] != 46);
        }
    }
    if e2 < e1 {
        if e1 == s.len() {
            assert(s[e2] == 46);
            assert(s[e2] != 46);
        } else {
            assert(s[e1] == 46);
            assert(s[e1] != 46);
        }
    }
}

/// A stem has one first `--` only.
pub proof fn lemma_first_dashes_unique(s: Seq<u8>, m1: int, m2: int)
    requires
        first_dashes(s, m1),
        first_dashes(s, m2),
    ensures
        m1 == m2,
{
    if m1 < m2 {
        assert(!(s[m1] == 45 && s[m1 + 1] == 45));
    }
    if m2 < m1 {
        assert(!(s[m2] == 45 && s[m2 + 1] == 45));
    }
}

/// The name carries the given complexity, whatever its stem end is.
pub open spec fn name_has_cplx(nm: Seq<u8>, ip: u64, fr: Seq<u8>) -> bool {
    exists|e: int| #[trigger] is_stem_end(nm, e) && name_parses_to(nm, e, ip, fr)
}

/// A name carries one complexity only.
pub proof fn lemma_name_cplx_unique(nm: Seq<u8>, i1: u64, f1: Seq<u8>, i2: u64, f2: Seq<u8>)
    requires
        name_has_cplx(nm, i1, f1),
        name_has_cplx(nm, i2, f2),
    ensures
        i1 == i2,
        f1 == f2,
{
    let e1 = choose|e: int| #[trigger] is_stem_end(nm, e) && name_parses_to(nm, e, i1, f1);
    let e2 = choose|e: int| #[trigger] is_stem_end(nm, e) && name_parses_to(nm, e, i2, f2);
    lemma_stem_end_unique(nm, e1, e2);
    let m1 = choose|m: int|
        #[trigger] first_dashes(nm.subrange(0, e1), m) && parses_to(nm.subrange(0, m), i1, f1);
    let m2 = choose|m: int|
        #[trigger] first_dashes(nm.subrange(0, e2), m) && parses_to(nm.subrange(0, m), i2, f2);
    lemma_first_dashes_unique(nm.subrange(0, e1), m1, m2);
    lemma_parses_unique(nm.subrange(0, m1), i1, f1, i2, f2);
}

/// The stem of a file name: everything before the last point, or the
/// whole name when there is none.
pub fn stem_end(name: &[u8]) -> (r: usize)
    ensures
        is_stem_end(name@, r as int),
{
    let mut i: usize = name.len();
    while i > 0
        invariant
            i <= name@.len(),
            forall|j: int| i <= j < name@.len() ==> name@[j] != 46,
        decreases i,
    {
        i = i - 1;
        if name[i] == 46 {
            return i;
        }
    }
    name.len()
}

/// The position of the first `--` of a sequence, if any.
pub open spec fn first_dashes(s: Seq<u8>, m: int) -> bool {
    &&& 0 <= m
    &&& m + 1 < s.len()
    &&& s[m] == 45 && s[m + 1] == 45
    &&& forall|t: int| 0 <= t < m ==> !(s[t] == 45 && #[trigger] s[t + 1] == 45)
}

/// The file name carries the given complexity: its stem splits at the
/// first `--` and the part before it parses as that decimal.
pub open spec fn name_parses_to(name: Seq<u8>, stem_end_pos: int, ip: u64, fr: Seq<u8>) -> bool {
    exists|m: int|
        #[trigger] first_dashes(name.subrange(0, stem_end_pos), m) && parses_to(
            name.subrange(0, m),
            ip,
            fr,
        )
}

/// The complexity encoded in an artifact file name, when the name has
/// the form `<complexity>--<rest>`: the decimal before the first `--`
/// of the stem. Absent exactly when the name carries no complexity.
pub fn parse_complexity(name: &[u8]) -> (r: Option<Complexity>)
    ensures
        match r {
            Some(c) => name_has_cplx(name@, c.int_part, c.frac@),
            None => forall|ip: u64, fr: Seq<u8>| !name_has_cplx(name@, ip, fr),
        },
{
    let end = stem_end(name);
    let stem = &name[0..end];
    proof {
        assert(stem@ == name@.subrange(0, end as int));
    }
    let mut i: usize = 0;
    if stem.len() < 2 {
        proof {
            assert forall|ip: u64, fr: Seq<u8>| !name_has_cplx(name@, ip, fr) by {
                if name_has_cplx(name@, ip, fr) {
                    let e = choose|e: int|
                        #[trigger] is_stem_end(name@, e) && name_parses_to(name@, e, ip, fr);
                    lemma_stem_end_unique(name@, e, end as int);
                    let m = choose|m: int|
                        #[trigger] first_dashes(name@.subrange(0, e), m) && parses_to(
                            name@.subrange(0, m),
                            ip,
                            fr,
                        );
                }
            }
        }
        return None;
    }
    while i < stem.len() - 1
        invariant
            stem@.len() >= 2,
            i <= stem@.len() - 1,
            is_stem_end(name@, end as int),
            stem@ == name@.subrange(0, end as int),
            end <= name@.len(),
            forall|t: int| 0 <= t < i ==> !(stem@[t] == 45 && #[trigger] stem@[t + 1] == 45),
        decreases stem@.len() - i,
    {
        if stem[i] == 45 && stem[i + 1] == 45 {
            proof {
                assert(first_dashes(stem@, i as int));
            }
            let sub = &stem[0..i];
            proof {
                assert(sub@ == stem@.subrange(0, i as int));
                assert(sub@ =~= name@.subrange(0, i as int));
            }
            let r = parse_decimal(sub);
            proof {
                match &r {
                    Some(c) => {
                        assert(name_parses_to(name@, end as int, c.int_part, c.frac@));
                        assert(name_has_cplx(name@, c.int_part, c.frac@));
                    },
                    None => {
                        assert forall|ip: u64, fr: Seq<u8>| !name_has_cplx(name@, ip, fr) by {
                            if name_has_cplx(name@, ip, fr) {
                                let e = choose|e: int|
                                    #[trigger] is_stem_end(name@, e) && name_parses_to(
                                        name@,
                                        e,
                                        ip,
                                        fr,
                                    );
                                lemma_stem_end_unique(name@, e, end as int);
                                let m = choose|m: int|
                                    #[trigger] first_dashes(name@.subrange(0, e), m) && parses_to(
                                        name@.subrange(0, m),
                                        ip,
                                        fr,
                                    );
                                lemma_first_dashes_unique(stem@, m, i as int);
                                let k = choose|k: int|
                                    {
                                        &&& #[trigger] wf_decimal(sub@, k)
                                        &&& ip == digits_val(sub@.subrange(0, k))
                                    };
                                assert(digits_val(sub@.subrange(0, k)) <= u64::MAX);
                            }
                        }
                    },
                }
            }
            return r;
        }
        i = i + 1;
    }
    proof {
        assert forall|ip: u64, fr: Seq<u8>| !name_has_cplx(name@, ip, fr) by {
            if name_has_cplx(name@, ip, fr) {
                let e = choose|e: int|
                    #[trigger] is_stem_end(name@, e) && name_parses_to(name@, e, ip, fr);
                lemma_stem_end_unique(name@, e, end as int);
                let m = choose|m: int|
                    #[trigger] first_dashes(name@.subrange(0, e), m) && parses_to(
                        name@.subrange(0, m),
                        ip,
                        fr,
                    );
                assert(!(stem@[m] == 45 && stem@[m + 1] == 45));
            }
        }
    }
    None
}

/// The index of the simplest artifact in a directory listing: among
/// the names that carry a complexity, the last one with the smallest
/// complexity — or nothing, when none does.
pub fn simplest_input_file(names: &Vec<Vec<u8>>) -> (r: Option<usize>)
    ensures
        match r {
            Some(i) => i < names@.len() && exists|ip: u64, fr: Seq<u8>|
                {
                    &&& #[trigger] name_has_cplx(names@[i as int]@, ip, fr)
                    &&& forall|j: int, ip2: u64, fr2: Seq<u8>|
                        0 <= j < names@.len() && #[trigger] name_has_cplx(names@[j]@, ip2, fr2)
                            ==> pair_le(ip, fr, ip2, fr2) && (j > i ==> !pair_le(
                            ip2,
                            fr2,
                            ip,
                            fr,
                        ))
                },
            None => forall|j: int, ip: u64, fr: Seq<u8>|
                0 <= j < names@.len() ==> !(#[trigger] name_has_cplx(names@[j]@, ip, fr)),
        },
{
    let mut best: Option<(usize, Complexity)> = None;
    let mut i: usize = 0;
    while i < names.len()
        invariant
            i <= names@.len(),
            match best {
                Some(b) => {
                    &&& b.0 < i
                    &&& name_has_cplx(names@[b.0 as int]@, b.1.int_part, b.1.frac@)
                    &&& forall|j: int, ip2: u64, fr2: Seq<u8>|
                        0 <= j < i && #[trigger] name_has_cplx(names@[j]@, ip2, fr2) ==> pair_le(
                            b.1.int_part,
                            b.1.frac@,
                            ip2,
                            fr2,
                        ) && (j > b.0 ==> !pair_le(ip2, fr2, b.1.int_part, b.1.frac@))
                },
                None => forall|j: int, ip: u64, fr: Seq<u8>|
                    0 <= j < i ==> !(#[trigger] name_has_cplx(names@[j]@, ip, fr)),
            },
        decreases names@.len() - i,
    {
        let parsed = parse_complexity(names[i].as_slice());
        match parsed {
            Some(c) => {
                let ghost cip = c.int_part;
                let ghost cfr = c.frac@;
                let ghost pre_best = best;
                let replace = match &best {
                    Some(b) => cplx_le_exec(&c, &b.1),
                    None => true,
                };
                if replace {
                    best = Some((i, c));
                }
                proof {
                    let nb = best->Some_0;
                    assert forall|j: int, ip2: u64, fr2: Seq<u8>|
                        0 <= j < i + 1 && #[trigger] name_has_cplx(names@[j]@, ip2, fr2) implies pair_le(
                        nb.1.int_part,
                        nb.1.frac@,
                        ip2,
                        fr2,
                    ) && (j > nb.0 ==> !pair_le(ip2, fr2, nb.1.int_part, nb.1.frac@)) by {
                        if j == i {
                            lemma_name_cplx_unique(names@[j]@, ip2, fr2, cip, cfr);
                            if replace {
                                lemma_frac_le_from_refl(cfr, 0);
                            } else {
                                let b = pre_best->Some_0;
                                lemma_pair_le_total(cip, cfr, b.1.int_part, b.1.frac@);
                            }
                        } else {
                            match pre_best {
                                Some(b) => {
                                    if replace {
                                        lemma_pair_le_trans(
                                            cip,
                                            cfr,
                                            b.1.int_part,
                                            b.1.frac@,
                                            ip2,
                                            fr2,
                                        );
                                    }
                                },
                                None => {},
                            }
                        }
                    }
                }
            },
            None => {},
        }
        i = i + 1;
    }
    match best {
        Some(b) => {
            proof {
                let ip = b.1.int_part;
                let fr = b.1.frac@;
                assert(name_has_cplx(names@[b.0 as int]@, ip, fr));
                assert forall|j: int, ip2: u64, fr2: Seq<u8>|
                    0 <= j < names@.len() && #[trigger] name_has_cplx(names@[j]@, ip2, fr2) implies pair_le(
                    ip,
                    fr,
                    ip2,
                    fr2,
                ) && (j > b.0 ==> !pair_le(ip2, fr2, ip, fr)) by {}
            }
            Some(b.0)
        },
        None => None,
    }
}

/// Whether a first reproduction run confirmed the failure: a child
/// that exited successfully did not reproduce it, which makes the
/// minification pointless.
pub fn confirm_failure(child_succeeded: bool) -> (r: Result<(), ()>)
    ensures
        r is Ok <==> !child_succeeded,
{
    if child_succeeded {
        Err(())
    } else {
        Ok(())
    }
}

} // verus!

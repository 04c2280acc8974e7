//! Cycle arithmetic (least common multiples) and pitch resolution.
use vstd::prelude::*;
use crate::ast::{Pitch, ScaleDef, SScale};

verus! {

/// Euclid's greatest common divisor.
pub open spec fn spec_gcd(a: nat, b: nat) -> nat
    decreases b,
{
    if b == 0 {
        a
    } else {
        spec_gcd(b, a % b)
    }
}

/// The least common multiple: `0` when either argument is `0`, else
/// `a * b / gcd(a, b)`.
pub open spec fn spec_lcm(a: nat, b: nat) -> nat {
    if a == 0 || b == 0 {
        0
    } else {
        (a * b) / spec_gcd(a, b)
    }
}

/// The product that `lcm` forms on its way fits in a `usize`.
pub open spec fn lcm_fits(a: nat, b: nat) -> bool {
    a == 0 || b == 0 || a * b <= usize::MAX
}

/// Least common multiple of two cycle lengths; `0` if either is `0`.
pub fn lcm(a: usize, b: usize) -> (r: usize)
    requires
        lcm_fits(a as nat, b as nat),
    ensures
        r == spec_lcm(a as nat, b as nat),
{
    if a == 0 || b == 0 {
        return 0;
    }
    let mut x = a;
    let mut y = b;
    while y != 0
        invariant
            spec_gcd(x as nat, y as nat) == spec_gcd(a as nat, b as nat),
            x > 0,
        decreases y,
    {
        let t = y;
        y = x % y;
        x = t;
    }
    let gcd = x;
    proof {
        lemma_gcd_positive(a as nat, b as nat);
        assert(a * b <= usize::MAX);
    }
    (a * b) / gcd
}

pub proof fn lemma_gcd_positive(a: nat, b: nat)
    requires
        a > 0 || b > 0,
    ensures
        spec_gcd(a, b) > 0,
    decreases b,
{
    if b > 0 {
        if a % b == 0 {
            assert(spec_gcd(b, 0) == b);
        } else {
            lemma_gcd_positive(b, a % b);
        }
    }
}

/// `gcd(a, b)` divides both `a` and `b`.
pub proof fn lemma_gcd_divides(a: nat, b: nat)
    requires
        a > 0 || b > 0,
    ensures
        spec_gcd(a, b) > 0,
        a % spec_gcd(a, b) == 0,
        b % spec_gcd(a, b) == 0,
    decreases b,
{
    lemma_gcd_positive(a, b);
    if b > 0 {
        let r = a % b;
        let q = a / b;
        assert(a == b * q + r) by (nonlinear_arith)
            requires
                b > 0,
                r == a % b,
                q == a / b,
        ;
        if r == 0 {
            assert(spec_gcd(b, 0) == b);
            assert(spec_gcd(a, b) == b);
            assert(b % b == 0) by (nonlinear_arith)
                requires
                    b > 0,
            ;
        } else {
            lemma_gcd_divides(b, r);
            let g = spec_gcd(b, r);
            assert(spec_gcd(a, b) == g);
            let kb = b / g;
            let kr = r / g;
            assert(b == g * kb) by (nonlinear_arith)
                requires
                    g > 0,
                    b % g == 0,
                    kb == b / g,
            ;
            assert(r == g * kr) by (nonlinear_arith)
                requires
                    g > 0,
                    r % g == 0,
                    kr == r / g,
            ;
            assert(a == g * (kb * q + kr)) by (nonlinear_arith)
                requires
                    a == b * q + r,
                    b == g * kb,
                    r == g * kr,
            ;
            lemma_mul_mod_zero(g, (kb * q + kr) as nat);
        }
    } else {
        assert(spec_gcd(a, 0) == a);
        assert(a % a == 0) by (nonlinear_arith)
            requires
                a > 0,
        ;
    }
}

proof fn lemma_mul_mod_zero(g: nat, k: nat)
    requires
        g > 0,
    ensures
        (g * k) % g == 0,
{
    vstd::arithmetic::div_mod::lemma_mod_multiples_basic(k as int, g as int);
    assert(k * g == g * k) by (nonlinear_arith);
}

/// Law: for positive `a` and `b`, `lcm(a, b)` is a positive common multiple
/// of `a` and `b`, no larger than `a * b`.
pub proof fn law_lcm_common_multiple(a: nat, b: nat)
    requires
        a > 0,
        b > 0,
    ensures
        spec_lcm(a, b) > 0,
        spec_lcm(a, b) % a == 0,
        spec_lcm(a, b) % b == 0,
        spec_lcm(a, b) <= a * b,
{
    lemma_gcd_divides(a, b);
    let g = spec_gcd(a, b);
    let ka = a / g;
    let kb = b / g;
    assert(a == g * ka) by (nonlinear_arith)
        requires
            g > 0,
            a % g == 0,
            ka == a / g,
    ;
    assert(b == g * kb) by (nonlinear_arith)
        requires
            g > 0,
            b % g == 0,
            kb == b / g,
    ;
    // a * b / g == a * kb == ka * b
    assert(a * b == g * (a * kb)) by (nonlinear_arith)
        requires
            b == g * kb,
    ;
    vstd::arithmetic::div_mod::lemma_div_multiples_vanish((a * kb) as int, g as int);
    assert((g * (a * kb)) / g == a * kb);
    assert(spec_lcm(a, b) == a * kb);
    assert(a * kb == ka * b) by (nonlinear_arith)
        requires
            a == g * ka,
            b == g * kb,
    ;
    assert(kb >= 1) by (nonlinear_arith)
        requires
            b == g * kb,
            b > 0,
    ;
    assert(a * kb > 0 && a * kb <= a * b) by (nonlinear_arith)
        requires
            a > 0,
            kb >= 1,
            kb <= b,
    ;
    assert(kb <= b) by (nonlinear_arith)
        requires
            b == g * kb,
            g >= 1,
    ;
    lemma_mul_mod_zero(a, kb);
    lemma_mul_mod_zero(b, ka);
    assert(ka * b == b * ka) by (nonlinear_arith);
}

/// Coefficients `x`, `y` with `a * x + b * y == gcd(a, b)`, found by
/// running Euclid's algorithm backwards.
proof fn lemma_bezout(a: nat, b: nat) -> (xy: (int, int))
    ensures
        a * xy.0 + b * xy.1 == spec_gcd(a, b),
    decreases b,
{
    if b == 0 {
        (1, 0)
    } else {
        let (x, y) = lemma_bezout(b, a % b);
        let q = a / b;
        let r = a % b;
        assert(a == b * q + r) by (nonlinear_arith)
            requires
                b > 0,
                r == a % b,
                q == a / b,
        ;
        assert(a * y + b * (x - q * y) == b * x + r * y) by (nonlinear_arith)
            requires
                a == b * q + r,
        ;
        (y, x - q * y)
    }
}

/// Law: the least common multiple of two positive numbers divides every
/// common multiple of them, so no smaller positive number is a multiple of
/// both.
pub proof fn law_lcm_divides_common_multiple(a: nat, b: nat, m: nat)
    requires
        a > 0,
        b > 0,
        m % a == 0,
        m % b == 0,
    ensures
        m % spec_lcm(a, b) == 0,
        m > 0 ==> spec_lcm(a, b) <= m,
{
    lemma_gcd_divides(a, b);
    law_lcm_common_multiple(a, b);
    let g = spec_gcd(a, b);
    let (x, y) = lemma_bezout(a, b);
    let a1 = a / g;
    let s = m / a;
    let t = m / b;
    let l = spec_lcm(a, b);
    assert(a == g * a1) by (nonlinear_arith)
        requires
            g > 0,
            a % g == 0,
            a1 == a / g,
    ;
    assert(m == a * s) by (nonlinear_arith)
        requires
            a > 0,
            m % a == 0,
            s == m / a,
    ;
    assert(m == b * t) by (nonlinear_arith)
        requires
            b > 0,
            m % b == 0,
            t == m / b,
    ;
    assert(a * b == (a1 * b) * g + 0) by (nonlinear_arith)
        requires
            a == g * a1,
    ;
    vstd::arithmetic::div_mod::lemma_fundamental_div_mod_converse((a * b) as int, g as int, (a1 * b) as int, 0);
    assert(l == a1 * b);
    let z: int = t * x + s * y;
    assert(m * g == (l * z) * g) by (nonlinear_arith)
        requires
            a * x + b * y == g,
            m == a * s,
            m == b * t,
            a == g * a1,
            l == a1 * b,
            z == t * x + s * y,
    ;
    assert(m == l * z) by (nonlinear_arith)
        requires
            m * g == (l * z) * g,
            g > 0,
    ;
    vstd::arithmetic::div_mod::lemma_fundamental_div_mod_converse(m as int, l as int, z, 0);
    if m > 0 {
        assert(z >= 1) by (nonlinear_arith)
            requires
                m == l * z,
                l > 0,
                m > 0,
        ;
        assert(l <= m) by (nonlinear_arith)
            requires
                m == l * z,
                l > 0,
                z >= 1,
        ;
    }
}

/// Law: `lcm` does not depend on the order of its arguments, and `0` absorbs.
pub proof fn law_lcm_commutative(a: nat, b: nat)
    ensures
        spec_lcm(a, b) == spec_lcm(b, a),
        spec_lcm(a, 0) == 0,
        spec_lcm(0, b) == 0,
{
    if a > 0 && b > 0 {
        law_lcm_common_multiple(a, b);
        law_lcm_common_multiple(b, a);
        lemma_gcd_divides(a, b);
        lemma_gcd_divides(b, a);
        lemma_gcd_symmetric(a, b);
        assert(a * b == b * a) by (nonlinear_arith);
    }
}

proof fn lemma_gcd_symmetric(a: nat, b: nat)
    requires
        a > 0,
        b > 0,
    ensures
        spec_gcd(a, b) == spec_gcd(b, a),
{
    // gcd(b, a) unfolds to gcd(a, b % a) and gcd(a, b) to gcd(b, a % b);
    // both equal the common divisor reached by Euclid's algorithm.
    lemma_gcd_max(a, b);
    lemma_gcd_max(b, a);
    lemma_gcd_divides(a, b);
    lemma_gcd_divides(b, a);
    let g1 = spec_gcd(a, b);
    let g2 = spec_gcd(b, a);
    assert(g1 <= g2);
    assert(g2 <= g1);
}

/// Every common divisor of `a` and `b` divides `gcd(a, b)`, hence is no larger.
proof fn lemma_gcd_max(a: nat, b: nat)
    requires
        a > 0 || b > 0,
    ensures
        forall|d: nat| #![trigger a % d, b % d] d > 0 && a % d == 0 && b % d == 0 ==> spec_gcd(a, b) % d == 0 && d <= spec_gcd(a, b),
    decreases b,
{
    lemma_gcd_positive(a, b);
    if b == 0 {
        assert forall|d: nat| #![trigger a % d, b % d] d > 0 && a % d == 0 && b % d == 0 implies spec_gcd(a, b) % d == 0 && d <= spec_gcd(a, b) by {
            vstd::arithmetic::div_mod::lemma_mod_is_zero(a as nat, d as nat);
        }
    } else {
        let r = a % b;
        lemma_gcd_max(b, r);
        assert forall|d: nat| #![trigger a % d, b % d] d > 0 && a % d == 0 && b % d == 0 implies spec_gcd(a, b) % d == 0 && d <= spec_gcd(a, b) by {
            let q = a / b;
            assert(a == b * q + r) by (nonlinear_arith)
                requires
                    b > 0,
                    r == a % b,
                    q == a / b,
            ;
            let ka = a / d;
            let kb = b / d;
            assert(a == d * ka) by (nonlinear_arith)
                requires
                    d > 0,
                    a % d == 0,
                    ka == a / d,
            ;
            assert(b == d * kb) by (nonlinear_arith)
                requires
                    d > 0,
                    b % d == 0,
                    kb == b / d,
            ;
            assert(r == d * (ka - kb * q)) by (nonlinear_arith)
                requires
                    a == b * q + r,
                    a == d * ka,
                    b == d * kb,
            ;
            vstd::arithmetic::div_mod::lemma_mod_multiples_basic(ka - kb * q, d as int);
            assert((ka - kb * q) * d == d * (ka - kb * q)) by (nonlinear_arith);
            assert(r % d == 0);
            assert(b % d == 0 && r % d == 0);
        }
    }
}

/// Clamps an integer to the MIDI pitch range.
pub open spec fn clamp_midi(x: int) -> u8 {
    if x < 0 {
        0
    } else if x > 127 {
        127
    } else {
        x as u8
    }
}

/// The MIDI pitch of a scale degree: the degree selects an interval of the
/// scale, whole scale lengths move by octaves, and accidentals and the octave
/// offset shift by semitones. Without a scale the degree is a MIDI number.
pub open spec fn spec_resolve_pitch(pitch: Pitch, scale: Option<SScale>, octave_offset: i32) -> u8 {
    let shift = octave_offset * 12;
    match pitch {
        Pitch::Numeric(val, acc) => match scale {
            Some(sc) => {
                let len = sc.intervals.len() as int;
                let octave = (val as int) / len;
                let degree = (val as int) % len;
                clamp_midi(sc.root_pitch + octave * 12 + sc.intervals[degree] + acc + shift)
            },
            None => clamp_midi(val + acc + shift),
        },
        Pitch::Absolute(p) => clamp_midi(p + shift),
    }
}

pub open spec fn scale_ok(scale: Option<SScale>) -> bool {
    match scale {
        Some(sc) => sc.intervals.len() > 0,
        None => true,
    }
}

fn clamp_wide_midi(x: i128) -> (r: u8)
    ensures
        r == clamp_midi(x as int),
{
    if x < 0 {
        0
    } else if x > 127 {
        127
    } else {
        x as u8
    }
}

/// Resolves a pitch against an optional scale and an octave offset.
pub fn resolve_pitch(pitch: &Pitch, scale: &Option<ScaleDef>, octave_offset: i32) -> (r: u8)
    requires
        scale_ok(crate::ast::opt_scale_view(*scale)),
    ensures
        r == spec_resolve_pitch(*pitch, crate::ast::opt_scale_view(*scale), octave_offset),
        r <= 127,
{
    let shift: i128 = octave_offset as i128 * 12;
    match pitch {
        Pitch::Numeric(val, acc) => {
            match scale {
                Some(sc) => {
                    let len: i128 = sc.intervals.len() as i128;
                    let v: i128 = *val as i128;
                    let octave: i128 = euclid_div(v, len);
                    proof {
                        vstd::arithmetic::div_mod::lemma_fundamental_div_mod(v as int, len as int);
                        let dg = (v as int) % (len as int);
                        assert(-2147483648 <= octave <= 2147483647 && octave * len == v - dg) by (nonlinear_arith)
                            requires
                                v == len * octave + dg,
                                0 <= dg < len,
                                len >= 1,
                                -2147483648 <= v <= 2147483647,
                        ;
                    }
                    let degree: i128 = v - octave * len;
                    let interval: i128 = sc.intervals[degree as usize] as i128;
                    let note: i128 = sc.root_pitch as i128 + octave * 12 + interval + *acc as i128 + shift;
                    clamp_wide_midi(note)
                },
                None => clamp_wide_midi(*val as i128 + *acc as i128 + shift),
            }
        },
        Pitch::Absolute(p) => clamp_wide_midi(*p as i128 + shift),
    }
}

/// Floor division for a positive divisor.
fn euclid_div(v: i128, d: i128) -> (q: i128)
    requires
        d > 0,
        d <= u64::MAX,
        -2147483648 <= v <= 2147483647,
    ensures
        q == (v as int) / (d as int),
{
    proof {
        vstd::arithmetic::div_mod::lemma_fundamental_div_mod(v as int, d as int);
    }
    if v >= 0 {
        v / d
    } else {
        let q = -(((-v) + d - 1) / d);
        proof {
            let a = (-v) as int;
            let qq = (a + d - 1) / (d as int);
            vstd::arithmetic::div_mod::lemma_fundamental_div_mod(a + d - 1, d as int);
            let r = (v as int) % (d as int);
            let fq = (v as int) / (d as int);
            assert(v == d * fq + r);
            assert(0 <= r < d);
            assert((a + d - 1) == d * qq + (a + d - 1) % (d as int));
            assert(-fq == qq) by (nonlinear_arith)
                requires
                    v == d * fq + r,
                    0 <= r < d,
                    a == -v,
                    (a + d - 1) == d * qq + (a + d - 1) % (d as int),
                    0 <= (a + d - 1) % (d as int) < d,
                    d > 0,
            ;
        }
        q
    }
}

/// Law: whatever the inputs, a resolved pitch lies in the MIDI range.
pub proof fn law_resolved_pitch_in_range(pitch: Pitch, scale: Option<SScale>, octave_offset: i32)
    ensures
        spec_resolve_pitch(pitch, scale, octave_offset) <= 127,
{
}

/// Law: in a scale of `n` degrees, degree `d + n` sounds one octave (12
/// semitones) above degree `d`, as long as neither is clamped.
pub proof fn law_degree_octave(d: i32, acc: i32, sc: SScale, octave_offset: i32)
    requires
        sc.intervals.len() > 0,
        d + sc.intervals.len() <= i32::MAX,
        ({
            let x = spec_resolve_pitch(Pitch::Numeric(d, acc), Some(sc), octave_offset);
            12 <= x + 12 && 0 < x < 115
        }),
    ensures
        spec_resolve_pitch(Pitch::Numeric((d + sc.intervals.len()) as i32, acc), Some(sc), octave_offset)
            == spec_resolve_pitch(Pitch::Numeric(d, acc), Some(sc), octave_offset) + 12,
{
    let n = sc.intervals.len() as int;
    vstd::arithmetic::div_mod::lemma_fundamental_div_mod(d as int, n);
    vstd::arithmetic::div_mod::lemma_fundamental_div_mod(d + n, n);
    vstd::arithmetic::div_mod::lemma_mod_add_multiples_vanish(d as int, n);
    vstd::arithmetic::div_mod::lemma_div_plus_one(d as int, n);
}

/// The intervals of a scale rise strictly and stay within an octave.
pub open spec fn rising_within_octave(iv: Seq<u8>) -> bool {
    &&& iv.len() > 0
    &&& forall|i: int, j: int| 0 <= i < j < iv.len() ==> iv[i] < iv[j]
    &&& forall|i: int| 0 <= i < iv.len() ==> #[trigger] iv[i] < 12
}

proof fn lemma_clamp_monotone(x: int, y: int)
    requires
        x <= y,
    ensures
        clamp_midi(x) <= clamp_midi(y),
{
}

/// Law: in a scale whose intervals rise within an octave, a higher degree
/// never sounds lower.
pub proof fn law_resolve_pitch_monotone(d1: i32, d2: i32, acc: i32, sc: SScale, octave_offset: i32)
    requires
        rising_within_octave(sc.intervals),
        d1 <= d2,
    ensures
        spec_resolve_pitch(Pitch::Numeric(d1, acc), Some(sc), octave_offset)
            <= spec_resolve_pitch(Pitch::Numeric(d2, acc), Some(sc), octave_offset),
{
    let n = sc.intervals.len() as int;
    let q1 = (d1 as int) / n;
    let r1 = (d1 as int) % n;
    let q2 = (d2 as int) / n;
    let r2 = (d2 as int) % n;
    vstd::arithmetic::div_mod::lemma_fundamental_div_mod(d1 as int, n);
    vstd::arithmetic::div_mod::lemma_fundamental_div_mod(d2 as int, n);
    vstd::arithmetic::div_mod::lemma_mod_bound(d1 as int, n);
    vstd::arithmetic::div_mod::lemma_mod_bound(d2 as int, n);
    vstd::arithmetic::div_mod::lemma_div_is_ordered(d1 as int, d2 as int, n);
    let v1 = q1 * 12 + sc.intervals[r1];
    let v2 = q2 * 12 + sc.intervals[r2];
    assert(sc.intervals[r1] < 12 && sc.intervals[r2] < 12);
    if q1 < q2 {
        assert(q1 * 12 + 12 <= q2 * 12);
    } else {
        assert(q1 == q2);
        assert(r1 <= r2) by (nonlinear_arith)
            requires
                d1 == n * q1 + r1,
                d2 == n * q2 + r2,
                q1 == q2,
                d1 <= d2,
        ;
        if r1 < r2 {
            assert(sc.intervals[r1] < sc.intervals[r2]);
        }
    }
    assert(v1 <= v2);
    let shift = octave_offset * 12;
    lemma_clamp_monotone(sc.root_pitch + v1 + acc + shift, sc.root_pitch + v2 + acc + shift);
}

} // verus!

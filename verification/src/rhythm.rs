//! Euclidean rhythms: `pulses` hits spread over `steps` steps.
use vstd::prelude::*;

verus! {

/// Step `i` of `E(pulses, steps)` is a hit.
pub open spec fn euclid_hit(i: int, pulses: int, steps: int) -> bool {
    (i * pulses) % steps < pulses
}

/// The number of hits among the first `n` steps.
pub open spec fn hits_count(pulses: int, steps: int, n: nat) -> nat
    decreases n,
{
    if n == 0 {
        0
    } else {
        hits_count(pulses, steps, (n - 1) as nat) + if euclid_hit(n - 1, pulses, steps) {
            1nat
        } else {
            0nat
        }
    }
}

/// The hits of each step: none when either count is 0.
pub fn euclid_hits(pulses: u8, steps: u8) -> (r: Vec<bool>)
    ensures
        pulses == 0 || steps == 0 ==> r@.len() == 0,
        pulses > 0 && steps > 0 ==> r@.len() == steps,
        pulses > 0 && steps > 0 ==> forall|i: int| 0 <= i < steps ==> #[trigger] r@[i] == euclid_hit(i, pulses as int, steps as int),
{
    let mut out: Vec<bool> = Vec::new();
    if pulses == 0 || steps == 0 {
        return out;
    }
    let p = pulses as usize;
    let s = steps as usize;
    let mut i: usize = 0;
    while i < s
        invariant
            0 <= i <= s,
            p == pulses,
            s == steps,
            s > 0,
            out@.len() == i,
            forall|k: int| 0 <= k < i ==> #[trigger] out@[k] == euclid_hit(k, p as int, s as int),
        decreases s - i,
    {
        assert(i * p <= 255 * 255) by (nonlinear_arith)
            requires
                i < 256,
                p < 256,
        ;
        out.push((i * p) % s < p);
        i += 1;
    }
    out
}

proof fn lemma_hit_is_step_up(i: int, p: int, s: int)
    requires
        i >= 1,
        0 < p <= s,
    ensures
        euclid_hit(i, p, s) <==> (i * p) / s > ((i - 1) * p) / s,
{
    let a = (i * p) / s;
    let r = (i * p) % s;
    vstd::arithmetic::div_mod::lemma_fundamental_div_mod(i * p, s);
    assert(0 <= r < s) by {
        vstd::arithmetic::div_mod::lemma_mod_bound(i * p, s);
    }
    assert((i - 1) * p == i * p - p) by (nonlinear_arith);
    assert(a * s == s * a) by (nonlinear_arith);
    assert((a - 1) * s == a * s - s) by (nonlinear_arith);
    if r >= p {
        vstd::arithmetic::div_mod::lemma_fundamental_div_mod_converse((i - 1) * p, s, a, r - p);
    } else {
        vstd::arithmetic::div_mod::lemma_fundamental_div_mod_converse((i - 1) * p, s, a - 1, s + r - p);
    }
}

proof fn lemma_hits_count_formula(p: int, s: int, n: nat)
    requires
        0 < p <= s,
        n >= 1,
    ensures
        hits_count(p, s, n) == 1 + ((n - 1) * p) / s,
    decreases n,
{
    if n == 1 {
        assert(0 * p == 0);
        assert(euclid_hit(0, p, s)) by {
            vstd::arithmetic::div_mod::lemma_small_mod(0, s as nat);
        }
        assert((0 * p) / s == 0) by (nonlinear_arith)
            requires
                s > 0,
        ;
        assert(hits_count(p, s, 0) == 0);
        assert(hits_count(p, s, 1) == 1);
        assert(((n - 1) * p) / s == 0);
    } else {
        lemma_hits_count_formula(p, s, (n - 1) as nat);
        lemma_hit_is_step_up(n - 1, p, s);
        let a = ((n - 1) * p) / s;
        let b = ((n - 2) * p) / s;
        assert((n - 1) * p == (n - 2) * p + p) by (nonlinear_arith);
        // consecutive quotients differ by at most one
        vstd::arithmetic::div_mod::lemma_fundamental_div_mod((n - 2) * p, s);
        vstd::arithmetic::div_mod::lemma_fundamental_div_mod((n - 1) * p, s);
        vstd::arithmetic::div_mod::lemma_mod_bound((n - 2) * p, s);
        vstd::arithmetic::div_mod::lemma_mod_bound((n - 1) * p, s);
        assert(a <= b + 1) by (nonlinear_arith)
            requires
                (n - 1) * p == (n - 2) * p + p,
                (n - 2) * p == s * b + ((n - 2) * p) % s,
                (n - 1) * p == s * a + ((n - 1) * p) % s,
                0 <= ((n - 2) * p) % s < s,
                0 <= ((n - 1) * p) % s < s,
                p <= s,
                s > 0,
        ;
        assert(a >= b) by (nonlinear_arith)
            requires
                (n - 1) * p == (n - 2) * p + p,
                (n - 2) * p == s * b + ((n - 2) * p) % s,
                (n - 1) * p == s * a + ((n - 1) * p) % s,
                0 <= ((n - 2) * p) % s < s,
                0 <= ((n - 1) * p) % s < s,
                p > 0,
                s > 0,
        ;
        assert(hits_count(p, s, (n - 1) as nat) == 1 + b);
        assert(hits_count(p, s, n) == hits_count(p, s, (n - 1) as nat) + if euclid_hit(n - 1, p, s) { 1nat } else { 0nat });
    }
}

proof fn lemma_all_hits(p: int, s: int, n: nat)
    requires
        0 < s < p,
    ensures
        hits_count(p, s, n) == n,
    decreases n,
{
    if n > 0 {
        lemma_all_hits(p, s, (n - 1) as nat);
        vstd::arithmetic::div_mod::lemma_mod_bound((n - 1) * p, s);
    }
}

/// `E(pulses, steps)` has exactly `min(pulses, steps)` hits: the pulses are
/// spread over the steps, and with more pulses than steps every step hits.
pub proof fn law_euclid_hit_count(pulses: u8, steps: u8)
    requires
        pulses > 0,
        steps > 0,
    ensures
        hits_count(pulses as int, steps as int, steps as nat) == if pulses <= steps {
            pulses as nat
        } else {
            steps as nat
        },
{
    let p = pulses as int;
    let s = steps as int;
    if p <= s {
        lemma_hits_count_formula(p, s, s as nat);
        assert((s - 1) * p == (p - 1) * s + (s - p)) by (nonlinear_arith);
        vstd::arithmetic::div_mod::lemma_fundamental_div_mod_converse((s - 1) * p, s, p - 1, s - p);
    } else {
        lemma_all_hits(p, s, s as nat);
    }
}

/// The first step of a rhythm with pulses always hits.
pub proof fn law_euclid_downbeat(pulses: u8, steps: u8)
    requires
        pulses > 0,
        steps > 0,
    ensures
        euclid_hit(0, pulses as int, steps as int),
{
    assert(0 * (pulses as int) == 0);
}

} // verus!

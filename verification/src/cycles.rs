//! How many cycles a pattern takes before it repeats.
use vstd::prelude::*;
use crate::ast::{layers_view, nodes_view, segments_view, weighted_view, CondScope, Modifier, Node, Program, SNode, STrack, Track};
use crate::math::{lcm, lcm_fits, spec_lcm};

verus! {

/// `n`, but at least 1.
pub open spec fn at_least_one(n: nat) -> nat {
    if n == 0 {
        1
    } else {
        n
    }
}

/// The cycle length of a node; `None` when a product on the way leaves the
/// range of `usize`.
pub open spec fn cycle_len(n: SNode) -> Option<nat>
    decreases n,
{
    match n {
        SNode::Chord(v) => cyc_fold(v, 1),
        SNode::Sequence(v) => cyc_fold(v, 1),
        SNode::ShuffledSequence(v) => cyc_fold(v, 1),
        SNode::RandomChoice(w) => cyc_wfold(w, 1),
        SNode::Alternator(v) => match cyc_fold(v, 1) {
            Some(c) => if c * v.len() <= usize::MAX {
                Some(c * v.len())
            } else {
                None
            },
            None => None,
        },
        SNode::Parallel(ls) => cyc_par(ls, 1),
        SNode::Polymeter(ls) => if ls.len() == 0 {
            Some(1)
        } else {
            proof {
                assert(decreases_to!(ls => ls[0]));
            }
            cyc_poly(ls, at_least_one(ls[0].len()), 1)
        },
        SNode::Arrange(segs) => Some(at_least_one(max_end(segs))),
        SNode::WithScale(_, c) => cycle_len(*c),
        SNode::Struct(a, b) => match cycle_len(*a) {
            Some(x) => match cycle_len(*b) {
                Some(y) => if lcm_fits(x, y) {
                    Some(spec_lcm(x, y))
                } else {
                    None
                },
                None => None,
            },
            None => None,
        },
        SNode::Modified(c, mods) => match cycle_len(*c) {
            Some(k) => match last_span(mods) {
                Some(sp) => Some(at_least_one(sp as nat)),
                None => Some(k),
            },
            None => None,
        },
        SNode::Condition { scope, interval, then_branch, else_branch, .. } => match cycle_len(*then_branch) {
            Some(x) => match cycle_len(*else_branch) {
                Some(y) => if lcm_fits(x, y) {
                    let b = spec_lcm(x, y);
                    if scope == CondScope::Cycle {
                        if lcm_fits(b, at_least_one(interval as nat)) {
                            Some(spec_lcm(b, at_least_one(interval as nat)))
                        } else {
                            None
                        }
                    } else {
                        Some(b)
                    }
                } else {
                    None
                },
                None => None,
            },
            None => None,
        },
        _ => Some(1),
    }
}

/// `acc` combined by lcm with the cycle lengths of `v`, from left to right.
pub open spec fn cyc_fold(v: Seq<SNode>, acc: nat) -> Option<nat>
    decreases v,
{
    if v.len() == 0 {
        Some(acc)
    } else {
        proof {
            assert(decreases_to!(v => v[0]));
            assert(decreases_to!(v => v.subrange(1, v.len() as int)));
        }
        match cycle_len(v[0]) {
            Some(k) => if lcm_fits(acc, k) {
                cyc_fold(v.subrange(1, v.len() as int), spec_lcm(acc, k))
            } else {
                None
            },
            None => None,
        }
    }
}

/// The same over weighted choices.
pub open spec fn cyc_wfold(w: Seq<(u32, SNode)>, acc: nat) -> Option<nat>
    decreases w,
{
    if w.len() == 0 {
        Some(acc)
    } else {
        proof {
            assert(decreases_to!(w => w[0]));
            assert(decreases_to!(w[0] => w[0].1));
            assert(decreases_to!(w => w.subrange(1, w.len() as int)));
        }
        match cycle_len(w[0].1) {
            Some(k) => if lcm_fits(acc, k) {
                cyc_wfold(w.subrange(1, w.len() as int), spec_lcm(acc, k))
            } else {
                None
            },
            None => None,
        }
    }
}

/// Layers played together: the lcm of the layers' lengths.
pub open spec fn cyc_par(ls: Seq<Seq<SNode>>, acc: nat) -> Option<nat>
    decreases ls,
{
    if ls.len() == 0 {
        Some(acc)
    } else {
        proof {
            assert(decreases_to!(ls => ls[0]));
            assert(decreases_to!(ls => ls.subrange(1, ls.len() as int)));
        }
        match cyc_fold(ls[0], 1) {
            Some(k) => if lcm_fits(acc, k) {
                cyc_par(ls.subrange(1, ls.len() as int), spec_lcm(acc, k))
            } else {
                None
            },
            None => None,
        }
    }
}

/// Layers of a polymeter against the step count `l0` of the first: each
/// layer meets the first again after `lcm(l0, steps * length) / l0` cycles.
pub open spec fn cyc_poly(ls: Seq<Seq<SNode>>, l0: nat, acc: nat) -> Option<nat>
    decreases ls,
{
    if ls.len() == 0 {
        Some(acc)
    } else {
        proof {
            assert(decreases_to!(ls => ls[0]));
            assert(decreases_to!(ls => ls.subrange(1, ls.len() as int)));
        }
        let li = at_least_one(ls[0].len());
        match cyc_fold(ls[0], 1) {
            Some(c) => if li * c <= usize::MAX && lcm_fits(l0, li * c) && l0 > 0 {
                let sync = spec_lcm(l0, li * c) / l0;
                if lcm_fits(acc, sync) {
                    cyc_poly(ls.subrange(1, ls.len() as int), l0, spec_lcm(acc, sync))
                } else {
                    None
                }
            } else {
                None
            },
            None => None,
        }
    }
}

/// The latest end among arrangement segments (0 when there are none).
pub open spec fn max_end(segs: Seq<(usize, usize, SNode)>) -> nat
    decreases segs.len(),
{
    if segs.len() == 0 {
        0
    } else {
        let m = max_end(segs.drop_last());
        if segs.last().1 > m {
            segs.last().1 as nat
        } else {
            m
        }
    }
}

/// The last span among modifiers.
pub open spec fn last_span(mods: Seq<Modifier>) -> Option<usize>
    decreases mods.len(),
{
    if mods.len() == 0 {
        None
    } else {
        match mods.last() {
            Modifier::Span(s) => Some(s),
            _ => last_span(mods.drop_last()),
        }
    }
}

/// The least number of cycles after which every unmuted track starts over
/// together; muted tracks do not count.
pub open spec fn pattern_len(tracks: Seq<STrack>, acc: nat) -> Option<nat>
    decreases tracks.len(),
{
    if tracks.len() == 0 {
        Some(acc)
    } else if tracks[0].is_muted {
        pattern_len(tracks.drop_first(), acc)
    } else {
        match cycle_len(tracks[0].root_node) {
            Some(k) => if lcm_fits(acc, k) {
                pattern_len(tracks.drop_first(), spec_lcm(acc, k))
            } else {
                None
            },
            None => None,
        }
    }
}

/// `lcm_fits` is the product fitting in a `usize`.
proof fn lemma_fits_product(a: nat, b: nat)
    ensures
        lcm_fits(a, b) <==> a * b <= usize::MAX,
{
    if a == 0 || b == 0 {
        assert(a * b == 0) by (nonlinear_arith)
            requires
                a == 0 || b == 0,
        ;
    }
}

/// Combines `acc` by lcm with `k`, when the product fits.
fn lcm_step(acc: usize, k: usize) -> (r: Option<usize>)
    ensures
        match r {
            Some(x) => lcm_fits(acc as nat, k as nat) && x == spec_lcm(acc as nat, k as nat),
            None => !lcm_fits(acc as nat, k as nat),
        },
{
    proof {
        lemma_fits_product(acc as nat, k as nat);
    }
    match acc.checked_mul(k) {
        Some(_) => Some(lcm(acc, k)),
        None => None,
    }
}

/// Folds the cycle lengths of `v` into `acc` with lcm.
#[verifier::loop_isolation(false)]
fn fold_nodes(v: &Vec<Node>, acc: usize) -> (r: Option<usize>)
    ensures
        match r {
            Some(k) => cyc_fold(nodes_view(v@), acc as nat) == Some(k as nat),
            None => cyc_fold(nodes_view(v@), acc as nat) is None,
        },
    decreases v,
{
    let ghost whole = nodes_view(v@);
    let mut a = acc;
    let mut i: usize = 0;
    assert(whole.subrange(0, whole.len() as int) =~= whole);
    while i < v.len()
        invariant
            0 <= i <= v@.len(),
            whole == nodes_view(v@),
            cyc_fold(whole, acc as nat) == cyc_fold(whole.subrange(i as int, whole.len() as int), a as nat),
        decreases v.len() - i,
    {
        proof {
            assert(decreases_to!(v => v@));
            assert(decreases_to!(v@ => v@[i as int]));
            let rest = whole.subrange(i as int, whole.len() as int);
            assert(rest[0] == v@[i as int]@);
            assert(rest.subrange(1, rest.len() as int) =~= whole.subrange(i + 1, whole.len() as int));
        }
        let k = match v[i].checked_cycle_length() {
            Some(k) => k,
            None => {
                return None;
            },
        };
        a = match lcm_step(a, k) {
            Some(x) => x,
            None => {
                return None;
            },
        };
        i += 1;
    }
    assert(whole.subrange(i as int, whole.len() as int) =~= Seq::<SNode>::empty());
    Some(a)
}

/// Folds the cycle lengths of weighted choices into `acc` with lcm.
#[verifier::loop_isolation(false)]
fn fold_weighted(w: &Vec<(u32, Node)>, acc: usize) -> (r: Option<usize>)
    ensures
        match r {
            Some(k) => cyc_wfold(weighted_view(w@), acc as nat) == Some(k as nat),
            None => cyc_wfold(weighted_view(w@), acc as nat) is None,
        },
    decreases w,
{
    let ghost whole = weighted_view(w@);
    let mut a = acc;
    let mut i: usize = 0;
    assert(whole.subrange(0, whole.len() as int) =~= whole);
    while i < w.len()
        invariant
            0 <= i <= w@.len(),
            whole == weighted_view(w@),
            cyc_wfold(whole, acc as nat) == cyc_wfold(whole.subrange(i as int, whole.len() as int), a as nat),
        decreases w.len() - i,
    {
        proof {
            assert(decreases_to!(w => w@));
            assert(decreases_to!(w@ => w@[i as int]));
            assert(decreases_to!(w@[i as int] => w@[i as int].1));
            let rest = whole.subrange(i as int, whole.len() as int);
            assert(rest[0].1 == w@[i as int].1@);
            assert(rest.subrange(1, rest.len() as int) =~= whole.subrange(i + 1, whole.len() as int));
        }
        let k = match w[i].1.checked_cycle_length() {
            Some(k) => k,
            None => {
                return None;
            },
        };
        a = match lcm_step(a, k) {
            Some(x) => x,
            None => {
                return None;
            },
        };
        i += 1;
    }
    assert(whole.subrange(i as int, whole.len() as int) =~= Seq::<(u32, SNode)>::empty());
    Some(a)
}

/// Folds the lengths of parallel layers into `acc` with lcm.
#[verifier::loop_isolation(false)]
fn fold_parallel(ls: &Vec<Vec<Node>>, acc: usize) -> (r: Option<usize>)
    ensures
        match r {
            Some(k) => cyc_par(layers_view(ls@), acc as nat) == Some(k as nat),
            None => cyc_par(layers_view(ls@), acc as nat) is None,
        },
    decreases ls,
{
    let ghost whole = layers_view(ls@);
    let mut a = acc;
    let mut i: usize = 0;
    assert(whole.subrange(0, whole.len() as int) =~= whole);
    while i < ls.len()
        invariant
            0 <= i <= ls@.len(),
            whole == layers_view(ls@),
            cyc_par(whole, acc as nat) == cyc_par(whole.subrange(i as int, whole.len() as int), a as nat),
        decreases ls.len() - i,
    {
        proof {
            assert(decreases_to!(ls => ls@));
            assert(decreases_to!(ls@ => ls@[i as int]));
            let rest = whole.subrange(i as int, whole.len() as int);
            assert(rest[0] == nodes_view(ls@[i as int]@));
            assert(rest.subrange(1, rest.len() as int) =~= whole.subrange(i + 1, whole.len() as int));
        }
        let k = match fold_nodes(&ls[i], 1) {
            Some(k) => k,
            None => {
                return None;
            },
        };
        a = match lcm_step(a, k) {
            Some(x) => x,
            None => {
                return None;
            },
        };
        i += 1;
    }
    assert(whole.subrange(i as int, whole.len() as int) =~= Seq::<Seq<SNode>>::empty());
    Some(a)
}

/// Folds the sync lengths of polymeter layers against `l0` into `acc`.
#[verifier::loop_isolation(false)]
fn fold_poly(ls: &Vec<Vec<Node>>, l0: usize, acc: usize) -> (r: Option<usize>)
    requires
        l0 > 0,
    ensures
        match r {
            Some(k) => cyc_poly(layers_view(ls@), l0 as nat, acc as nat) == Some(k as nat),
            None => cyc_poly(layers_view(ls@), l0 as nat, acc as nat) is None,
        },
    decreases ls,
{
    let ghost whole = layers_view(ls@);
    let mut a = acc;
    let mut i: usize = 0;
    assert(whole.subrange(0, whole.len() as int) =~= whole);
    while i < ls.len()
        invariant
            0 <= i <= ls@.len(),
            l0 > 0,
            whole == layers_view(ls@),
            cyc_poly(whole, l0 as nat, acc as nat) == cyc_poly(
                whole.subrange(i as int, whole.len() as int),
                l0 as nat,
                a as nat,
            ),
        decreases ls.len() - i,
    {
        proof {
            assert(decreases_to!(ls => ls@));
            assert(decreases_to!(ls@ => ls@[i as int]));
            let rest = whole.subrange(i as int, whole.len() as int);
            assert(rest[0] == nodes_view(ls@[i as int]@));
            assert(rest.subrange(1, rest.len() as int) =~= whole.subrange(i + 1, whole.len() as int));
        }
        let n = ls[i].len();
        let li: usize = if n == 0 {
            1
        } else {
            n
        };
        let c = match fold_nodes(&ls[i], 1) {
            Some(c) => c,
            None => {
                return None;
            },
        };
        let prod = match li.checked_mul(c) {
            Some(x) => x,
            None => {
                return None;
            },
        };
        let big = match lcm_step(l0, prod) {
            Some(x) => x,
            None => {
                return None;
            },
        };
        let sync = big / l0;
        a = match lcm_step(a, sync) {
            Some(x) => x,
            None => {
                return None;
            },
        };
        i += 1;
    }
    assert(whole.subrange(i as int, whole.len() as int) =~= Seq::<Seq<SNode>>::empty());
    Some(a)
}

/// The latest end among arrangement segments (0 when there are none).
pub fn arrange_end(segs: &Vec<(usize, usize, Box<Node>)>) -> (r: usize)
    ensures
        r == max_end(segments_view(segs@)),
{
    let ghost whole = segments_view(segs@);
    let mut m: usize = 0;
    let mut i: usize = 0;
    assert(whole.take(0) =~= Seq::<(usize, usize, SNode)>::empty());
    while i < segs.len()
        invariant
            0 <= i <= segs@.len(),
            whole == segments_view(segs@),
            m == max_end(whole.take(i as int)),
        decreases segs.len() - i,
    {
        proof {
            assert(whole.take(i + 1).drop_last() =~= whole.take(i as int));
            assert(whole.take(i + 1).last().1 == segs@[i as int].1);
        }
        if segs[i].1 > m {
            m = segs[i].1;
        }
        i += 1;
    }
    assert(whole.take(i as int) =~= whole);
    m
}

/// The last span among modifiers.
fn span_of(mods: &Vec<Modifier>) -> (r: Option<usize>)
    ensures
        r == last_span(mods@),
{
    let mut i = mods.len();
    assert(mods@.take(i as int) =~= mods@);
    while i > 0
        invariant
            i <= mods@.len(),
            last_span(mods@) == last_span(mods@.take(i as int)),
        decreases i,
    {
        proof {
            assert(mods@.take(i as int).drop_last() =~= mods@.take(i - 1));
        }
        if let Modifier::Span(sp) = mods[i - 1] {
            return Some(sp);
        }
        i -= 1;
    }
    None
}

impl Node {
    /// The cycle length, or `None` when it does not fit in a `usize`.
    pub fn checked_cycle_length(&self) -> (r: Option<usize>)
        ensures
            match r {
                Some(k) => cycle_len(self@) == Some(k as nat),
                None => cycle_len(self@) is None,
            },
        decreases self,
    {
        match self {
            Node::Chord(v) => fold_nodes(v, 1),
            Node::Sequence(v) => fold_nodes(v, 1),
            Node::ShuffledSequence(v) => fold_nodes(v, 1),
            Node::RandomChoice(w) => fold_weighted(w, 1),
            Node::Alternator(v) => {
                let c = fold_nodes(v, 1)?;
                c.checked_mul(v.len())
            },
            Node::Parallel(ls) => fold_parallel(ls, 1),
            Node::Polymeter(ls) => {
                if ls.len() == 0 {
                    assert(layers_view(ls@).len() == 0);
                    return Some(1);
                }
                assert(layers_view(ls@)[0] == nodes_view(ls@[0]@));
                let n0 = ls[0].len();
                let l0: usize = if n0 == 0 {
                    1
                } else {
                    n0
                };
                fold_poly(ls, l0, 1)
            },
            Node::Arrange(segs) => {
                let m = arrange_end(segs);
                Some(
                    if m == 0 {
                        1
                    } else {
                        m
                    },
                )
            },
            Node::WithScale(_, c) => c.checked_cycle_length(),
            Node::Struct(a, b) => {
                let x = a.checked_cycle_length()?;
                let y = b.checked_cycle_length()?;
                lcm_step(x, y)
            },
            Node::Condition { scope, interval, then_branch, else_branch, .. } => {
                let x = then_branch.checked_cycle_length()?;
                let y = else_branch.checked_cycle_length()?;
                let b = lcm_step(x, y)?;
                match scope {
                    CondScope::Cycle => {
                        let n: usize = if *interval == 0 {
                            1
                        } else {
                            *interval
                        };
                        lcm_step(b, n)
                    },
                    _ => Some(b),
                }
            },
            Node::Modified(c, mods) => {
                let k = c.checked_cycle_length()?;
                match span_of(mods) {
                    Some(sp) => Some(
                        if sp == 0 {
                            1
                        } else {
                            sp
                        },
                    ),
                    None => Some(k),
                }
            },
            _ => Some(1),
        }
    }

    /// The number of cycles after which the node repeats.
    pub fn cycle_length(&self) -> (r: usize)
        requires
            cycle_len(self@) is Some,
        ensures
            cycle_len(self@) == Some(r as nat),
    {
        match self.checked_cycle_length() {
            Some(k) => k,
            None => 1,
        }
    }
}

impl Program {
    /// The pattern length, or `None` when it does not fit in a `usize`.
    pub fn checked_pattern_length(&self) -> (r: Option<usize>)
        ensures
            match r {
                Some(k) => pattern_len(self@.tracks, 1) == Some(k as nat),
                None => pattern_len(self@.tracks, 1) is None,
            },
    {
        let ghost whole = self@.tracks;
        let mut a: usize = 1;
        let mut i: usize = 0;
        assert(whole.skip(0) =~= whole);
        while i < self.tracks.len()
            invariant
                0 <= i <= self.tracks@.len(),
                whole == self@.tracks,
                whole.len() == self.tracks@.len(),
                pattern_len(whole, 1) == pattern_len(whole.skip(i as int), a as nat),
            decreases self.tracks.len() - i,
        {
            proof {
                assert(whole.skip(i as int)[0] == self.tracks@[i as int]@);
                assert(whole.skip(i as int).drop_first() =~= whole.skip(i + 1));
            }
            if self.tracks[i].is_muted {
                i += 1;
                continue;
            }
            let k = match self.tracks[i].root_node.checked_cycle_length() {
                Some(k) => k,
                None => {
                    return None;
                },
            };
            a = match lcm_step(a, k) {
                Some(x) => x,
                None => {
                    return None;
                },
            };
            i += 1;
        }
        assert(whole.skip(i as int) =~= Seq::<STrack>::empty());
        Some(a)
    }

    /// The number of cycles after which all tracks start over together.
    pub fn pattern_length_cycles(&self) -> (r: usize)
        requires
            pattern_len(self@.tracks, 1) is Some,
        ensures
            pattern_len(self@.tracks, 1) == Some(r as nat),
    {
        match self.checked_pattern_length() {
            Some(k) => k,
            None => 1,
        }
    }
}


proof fn lemma_divides_trans(r: nat, b: nat, a: nat)
    requires
        a > 0,
        b > 0,
        r % b == 0,
        b % a == 0,
    ensures
        r % a == 0,
{
    let q1 = r / b;
    let q2 = b / a;
    assert(r == b * q1) by (nonlinear_arith)
        requires
            b > 0,
            r % b == 0,
            q1 == r / b,
    ;
    assert(b == a * q2) by (nonlinear_arith)
        requires
            a > 0,
            b % a == 0,
            q2 == b / a,
    ;
    assert(r == a * (q2 * q1)) by (nonlinear_arith)
        requires
            r == b * q1,
            b == a * q2,
    ;
    vstd::arithmetic::div_mod::lemma_mod_multiples_basic((q2 * q1) as int, a as int);
    assert((q2 * q1) * a == a * (q2 * q1)) by (nonlinear_arith);
}

proof fn lemma_pattern_from_zero(tracks: Seq<STrack>)
    ensures
        pattern_len(tracks, 0) matches Some(r) ==> r == 0,
    decreases tracks.len(),
{
    if tracks.len() > 0 {
        if tracks[0].is_muted {
            lemma_pattern_from_zero(tracks.drop_first());
        } else if let Some(k) = cycle_len(tracks[0].root_node) {
            crate::math::law_lcm_commutative(0, k);
            lemma_pattern_from_zero(tracks.drop_first());
        }
    }
}

proof fn lemma_pattern_acc(tracks: Seq<STrack>, acc: nat)
    requires
        acc > 0,
        pattern_len(tracks, acc) is Some,
    ensures
        pattern_len(tracks, acc).unwrap() % acc == 0,
    decreases tracks.len(),
{
    if tracks.len() == 0 {
        assert(acc % acc == 0) by (nonlinear_arith)
            requires
                acc > 0,
        ;
    } else if tracks[0].is_muted {
        lemma_pattern_acc(tracks.drop_first(), acc);
    } else {
        let k0 = cycle_len(tracks[0].root_node).unwrap();
        let a2 = spec_lcm(acc, k0);
        let r = pattern_len(tracks, acc).unwrap();
        if k0 == 0 {
            crate::math::law_lcm_commutative(acc, 0);
            lemma_pattern_from_zero(tracks.drop_first());
        } else {
            crate::math::law_lcm_common_multiple(acc, k0);
            lemma_pattern_acc(tracks.drop_first(), a2);
            if r > 0 {
                lemma_divides_trans(r, a2, acc);
            }
        }
        if r == 0 {
            lemma_zero_mod(acc);
        }
    }
}

proof fn lemma_pattern_multiple(tracks: Seq<STrack>, acc: nat, i: int)
    requires
        acc > 0,
        pattern_len(tracks, acc) is Some,
        0 <= i < tracks.len(),
        !tracks[i].is_muted,
        cycle_len(tracks[i].root_node) matches Some(k) && k > 0,
    ensures
        pattern_len(tracks, acc).unwrap() % cycle_len(tracks[i].root_node).unwrap() == 0,
    decreases tracks.len(),
{
    if tracks[0].is_muted {
        assert(tracks.drop_first()[i - 1] == tracks[i]);
        lemma_pattern_multiple(tracks.drop_first(), acc, i - 1);
        return;
    }
    let k0 = cycle_len(tracks[0].root_node).unwrap();
    let a2 = spec_lcm(acc, k0);
    let r = pattern_len(tracks, acc).unwrap();
    if k0 == 0 {
        crate::math::law_lcm_commutative(acc, 0);
        lemma_pattern_from_zero(tracks.drop_first());
    } else {
        crate::math::law_lcm_common_multiple(acc, k0);
        if i == 0 {
            lemma_pattern_acc(tracks.drop_first(), a2);
            if r > 0 {
                lemma_divides_trans(r, a2, k0);
            }
        } else {
            assert(tracks.drop_first()[i - 1] == tracks[i]);
            lemma_pattern_multiple(tracks.drop_first(), a2, i - 1);
        }
    }
    if r == 0 {
        lemma_zero_mod(cycle_len(tracks[i].root_node).unwrap());
    }
}

proof fn lemma_zero_mod(x: nat)
    requires
        x > 0,
    ensures
        0nat % x == 0,
{
    vstd::arithmetic::div_mod::lemma_mod_multiples_basic(0, x as int);
}

/// The pattern length is a common multiple of the cycle length of every
/// unmuted track, so that all of them start over together at its end.
pub proof fn law_pattern_length_multiple(tracks: Seq<STrack>, i: int)
    requires
        pattern_len(tracks, 1) is Some,
        0 <= i < tracks.len(),
        !tracks[i].is_muted,
        cycle_len(tracks[i].root_node) matches Some(k) && k > 0,
    ensures
        pattern_len(tracks, 1).unwrap() % cycle_len(tracks[i].root_node).unwrap() == 0,
{
    lemma_pattern_multiple(tracks, 1, i);
}


proof fn lemma_par_from_zero(ls: Seq<Seq<SNode>>)
    ensures
        cyc_par(ls, 0) matches Some(r) ==> r == 0,
    decreases ls.len(),
{
    if ls.len() > 0 {
        if let Some(k) = cyc_fold(ls[0], 1) {
            crate::math::law_lcm_commutative(0, k);
            lemma_par_from_zero(ls.subrange(1, ls.len() as int));
        }
    }
}

proof fn lemma_par_acc(ls: Seq<Seq<SNode>>, acc: nat)
    requires
        acc > 0,
        cyc_par(ls, acc) is Some,
    ensures
        cyc_par(ls, acc).unwrap() % acc == 0,
    decreases ls.len(),
{
    if ls.len() == 0 {
        assert(acc % acc == 0) by (nonlinear_arith)
            requires
                acc > 0,
        ;
    } else {
        let rest = ls.subrange(1, ls.len() as int);
        let k0 = cyc_fold(ls[0], 1).unwrap();
        let a2 = spec_lcm(acc, k0);
        let r = cyc_par(ls, acc).unwrap();
        if k0 == 0 {
            crate::math::law_lcm_commutative(acc, 0);
            lemma_par_from_zero(rest);
        } else {
            crate::math::law_lcm_common_multiple(acc, k0);
            lemma_par_acc(rest, a2);
            if r > 0 {
                lemma_divides_trans(r, a2, acc);
            }
        }
        if r == 0 {
            lemma_zero_mod(acc);
        }
    }
}

proof fn lemma_par_multiple(ls: Seq<Seq<SNode>>, acc: nat, i: int)
    requires
        acc > 0,
        cyc_par(ls, acc) is Some,
        0 <= i < ls.len(),
        cyc_fold(ls[i], 1) matches Some(k) && k > 0,
    ensures
        cyc_par(ls, acc).unwrap() % cyc_fold(ls[i], 1).unwrap() == 0,
    decreases ls.len(),
{
    let rest = ls.subrange(1, ls.len() as int);
    let k0 = cyc_fold(ls[0], 1).unwrap();
    let a2 = spec_lcm(acc, k0);
    let r = cyc_par(ls, acc).unwrap();
    if k0 == 0 {
        crate::math::law_lcm_commutative(acc, 0);
        lemma_par_from_zero(rest);
    } else {
        crate::math::law_lcm_common_multiple(acc, k0);
        if i == 0 {
            lemma_par_acc(rest, a2);
            if r > 0 {
                lemma_divides_trans(r, a2, k0);
            }
        } else {
            assert(rest[i - 1] == ls[i]);
            lemma_par_multiple(rest, a2, i - 1);
        }
    }
    if r == 0 {
        lemma_zero_mod(cyc_fold(ls[i], 1).unwrap());
    }
}

/// Layers played together repeat after a common multiple of the cycle
/// lengths of all the layers (each layer taken as the sequence it plays),
/// so that every layer is back at its start when the whole starts over.
pub proof fn law_parallel_length_multiple(ls: Seq<Seq<SNode>>, i: int)
    requires
        cycle_len(SNode::Parallel(ls)) is Some,
        0 <= i < ls.len(),
        cycle_len(SNode::Sequence(ls[i])) matches Some(k) && k > 0,
    ensures
        cycle_len(SNode::Parallel(ls)).unwrap() % cycle_len(SNode::Sequence(ls[i])).unwrap() == 0,
{
    lemma_par_multiple(ls, 1, i);
}


proof fn lemma_par_divides(ls: Seq<Seq<SNode>>, acc: nat, m: nat)
    requires
        acc > 0,
        m % acc == 0,
        cyc_par(ls, acc) is Some,
        forall|i: int| 0 <= i < ls.len() ==> (#[trigger] cyc_fold(ls[i], 1) matches Some(k) && k > 0 && m % k == 0),
    ensures
        m % cyc_par(ls, acc).unwrap() == 0,
        cyc_par(ls, acc).unwrap() > 0,
    decreases ls.len(),
{
    if ls.len() > 0 {
        let rest = ls.subrange(1, ls.len() as int);
        let k0 = cyc_fold(ls[0], 1).unwrap();
        crate::math::law_lcm_common_multiple(acc, k0);
        crate::math::law_lcm_divides_common_multiple(acc, k0, m);
        assert forall|i: int| 0 <= i < rest.len() implies (#[trigger] cyc_fold(rest[i], 1) matches Some(k) && k > 0
            && m % k == 0) by {
            assert(rest[i] == ls[i + 1]);
        }
        lemma_par_divides(rest, spec_lcm(acc, k0), m);
    }
}

/// Layers played together repeat after the least such common multiple:
/// when every layer has a positive cycle length, the parallel node's cycle
/// length divides (so is no more than) any positive number of cycles after
/// which each layer is back at its start.
pub proof fn law_parallel_length_least(ls: Seq<Seq<SNode>>, m: nat)
    requires
        cycle_len(SNode::Parallel(ls)) is Some,
        forall|i: int|
            0 <= i < ls.len() ==> (#[trigger] cycle_len(SNode::Sequence(ls[i])) matches Some(k) && k > 0 && m % k == 0),
    ensures
        m % cycle_len(SNode::Parallel(ls)).unwrap() == 0,
        m > 0 ==> cycle_len(SNode::Parallel(ls)).unwrap() <= m,
{
    assert forall|i: int| 0 <= i < ls.len() implies (#[trigger] cyc_fold(ls[i], 1) matches Some(k) && k > 0 && m % k
        == 0) by {
        assert(cycle_len(SNode::Sequence(ls[i])) == cyc_fold(ls[i], 1));
    }
    assert(m % 1 == 0) by (nonlinear_arith);
    lemma_par_divides(ls, 1, m);
    let r = cycle_len(SNode::Parallel(ls)).unwrap();
    if m > 0 {
        assert(r <= m) by (nonlinear_arith)
            requires
                m % r == 0,
                m > 0,
                r > 0,
        ;
    }
}

proof fn lemma_fold_from_zero(v: Seq<SNode>)
    ensures
        cyc_fold(v, 0) matches Some(r) ==> r == 0,
    decreases v.len(),
{
    if v.len() > 0 {
        if let Some(k) = cycle_len(v[0]) {
            crate::math::law_lcm_commutative(0, k);
            lemma_fold_from_zero(v.subrange(1, v.len() as int));
        }
    }
}

proof fn lemma_fold_acc(v: Seq<SNode>, acc: nat)
    requires
        acc > 0,
        cyc_fold(v, acc) is Some,
    ensures
        cyc_fold(v, acc).unwrap() % acc == 0,
    decreases v.len(),
{
    if v.len() == 0 {
        assert(acc % acc == 0) by (nonlinear_arith)
            requires
                acc > 0,
        ;
    } else {
        let rest = v.subrange(1, v.len() as int);
        let k0 = cycle_len(v[0]).unwrap();
        let a2 = spec_lcm(acc, k0);
        let r = cyc_fold(v, acc).unwrap();
        if k0 == 0 {
            crate::math::law_lcm_commutative(acc, 0);
            lemma_fold_from_zero(rest);
        } else {
            crate::math::law_lcm_common_multiple(acc, k0);
            lemma_fold_acc(rest, a2);
            if r > 0 {
                lemma_divides_trans(r, a2, acc);
            }
        }
        if r == 0 {
            lemma_zero_mod(acc);
        }
    }
}

proof fn lemma_fold_multiple(v: Seq<SNode>, acc: nat, i: int)
    requires
        acc > 0,
        cyc_fold(v, acc) is Some,
        0 <= i < v.len(),
        cycle_len(v[i]) matches Some(k) && k > 0,
    ensures
        cyc_fold(v, acc).unwrap() % cycle_len(v[i]).unwrap() == 0,
    decreases v.len(),
{
    let rest = v.subrange(1, v.len() as int);
    let k0 = cycle_len(v[0]).unwrap();
    let a2 = spec_lcm(acc, k0);
    let r = cyc_fold(v, acc).unwrap();
    if k0 == 0 {
        crate::math::law_lcm_commutative(acc, 0);
        lemma_fold_from_zero(rest);
    } else {
        crate::math::law_lcm_common_multiple(acc, k0);
        if i == 0 {
            lemma_fold_acc(rest, a2);
            if r > 0 {
                lemma_divides_trans(r, a2, k0);
            }
        } else {
            assert(rest[i - 1] == v[i]);
            lemma_fold_multiple(rest, a2, i - 1);
        }
    }
    if r == 0 {
        lemma_zero_mod(cycle_len(v[i]).unwrap());
    }
}

proof fn lemma_fold_divides(v: Seq<SNode>, acc: nat, m: nat)
    requires
        acc > 0,
        m % acc == 0,
        cyc_fold(v, acc) is Some,
        forall|i: int| 0 <= i < v.len() ==> (#[trigger] cycle_len(v[i]) matches Some(k) && k > 0 && m % k == 0),
    ensures
        m % cyc_fold(v, acc).unwrap() == 0,
        cyc_fold(v, acc).unwrap() > 0,
    decreases v.len(),
{
    if v.len() > 0 {
        let rest = v.subrange(1, v.len() as int);
        let k0 = cycle_len(v[0]).unwrap();
        crate::math::law_lcm_common_multiple(acc, k0);
        crate::math::law_lcm_divides_common_multiple(acc, k0, m);
        assert forall|i: int| 0 <= i < rest.len() implies (#[trigger] cycle_len(rest[i]) matches Some(k) && k > 0
            && m % k == 0) by {
            assert(rest[i] == v[i + 1]);
        }
        lemma_fold_divides(rest, spec_lcm(acc, k0), m);
    }
}


/// Notes in a row (or together in a chord) repeat after a common multiple
/// of the cycle lengths of all of them.
pub proof fn law_sequence_length_multiple(v: Seq<SNode>, i: int)
    requires
        cycle_len(SNode::Sequence(v)) is Some,
        0 <= i < v.len(),
        cycle_len(v[i]) matches Some(k) && k > 0,
    ensures
        cycle_len(SNode::Sequence(v)).unwrap() % cycle_len(v[i]).unwrap() == 0,
        cycle_len(SNode::Chord(v)) == cycle_len(SNode::Sequence(v)),
{
    lemma_fold_multiple(v, 1, i);
}

/// ... and after the least one: when each has a positive cycle length, the
/// sequence's cycle length divides any positive number of cycles after
/// which all of them are back at their start.
pub proof fn law_sequence_length_least(v: Seq<SNode>, m: nat)
    requires
        cycle_len(SNode::Sequence(v)) is Some,
        forall|i: int| 0 <= i < v.len() ==> (#[trigger] cycle_len(v[i]) matches Some(k) && k > 0 && m % k == 0),
    ensures
        m % cycle_len(SNode::Sequence(v)).unwrap() == 0,
        m > 0 ==> cycle_len(SNode::Sequence(v)).unwrap() <= m,
{
    assert(m % 1 == 0) by (nonlinear_arith);
    lemma_fold_divides(v, 1, m);
    let r = cycle_len(SNode::Sequence(v)).unwrap();
    if m > 0 {
        assert(r <= m) by (nonlinear_arith)
            requires
                m % r == 0,
                m > 0,
                r > 0,
        ;
    }
}


proof fn lemma_pattern_divides(tracks: Seq<STrack>, acc: nat, m: nat)
    requires
        acc > 0,
        m % acc == 0,
        pattern_len(tracks, acc) is Some,
        forall|i: int|
            0 <= i < tracks.len() && !tracks[i].is_muted ==> (#[trigger] cycle_len(tracks[i].root_node) matches Some(k)
                && k > 0 && m % k == 0),
    ensures
        m % pattern_len(tracks, acc).unwrap() == 0,
        pattern_len(tracks, acc).unwrap() > 0,
    decreases tracks.len(),
{
    if tracks.len() > 0 {
        let rest = tracks.drop_first();
        assert forall|i: int| 0 <= i < rest.len() && !rest[i].is_muted implies (#[trigger] cycle_len(
            rest[i].root_node,
        ) matches Some(k) && k > 0 && m % k == 0) by {
            assert(rest[i] == tracks[i + 1]);
        }
        if tracks[0].is_muted {
            lemma_pattern_divides(rest, acc, m);
        } else {
            let k0 = cycle_len(tracks[0].root_node).unwrap();
            crate::math::law_lcm_common_multiple(acc, k0);
            crate::math::law_lcm_divides_common_multiple(acc, k0, m);
            lemma_pattern_divides(rest, spec_lcm(acc, k0), m);
        }
    }
}

/// The pattern length is the least such common multiple: when every
/// unmuted track has a positive cycle length, it divides (so is no more
/// than) any positive number of cycles after which every unmuted track is
/// back at its start.
pub proof fn law_pattern_length_least(tracks: Seq<STrack>, m: nat)
    requires
        pattern_len(tracks, 1) is Some,
        forall|i: int|
            0 <= i < tracks.len() && !tracks[i].is_muted ==> (#[trigger] cycle_len(tracks[i].root_node) matches Some(k)
                && k > 0 && m % k == 0),
    ensures
        m % pattern_len(tracks, 1).unwrap() == 0,
        m > 0 ==> pattern_len(tracks, 1).unwrap() <= m,
{
    assert(m % 1 == 0) by (nonlinear_arith);
    lemma_pattern_divides(tracks, 1, m);
    let r = pattern_len(tracks, 1).unwrap();
    if m > 0 {
        assert(r <= m) by (nonlinear_arith)
            requires
                m % r == 0,
                m > 0,
                r > 0,
        ;
    }
}

} // verus!

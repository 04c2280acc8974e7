//! Postfix modifiers (`.arp(up)`, `*2`, `.off(0.25, +12)`, ...) and how they
//! attach to the node before them.
use vstd::prelude::*;
use crate::ast::{
    clone_node, ArpStyle, CondScope, Decimal, ExtractType, Modifier, Node, SNode,
};
use super::primitives::{
    first_lit, float_f32, float_f64, ident, int_i32, int_u8, int_usize, just, kw, lemma_decimal_bounds,
    lemma_first_lit, lemma_ident, lemma_int_i32_bounds, lemma_int_u8_bounds, lemma_int_usize_bounds,
    lemma_kw_bounds, lemma_pad_char_bounds, lemma_padding_bounds, pad_char, padding, spec_decimal,
    spec_first_lit, spec_ident, spec_int_i32, spec_int_u8, spec_int_usize, spec_just, spec_kw,
    spec_pad_char, spec_padding,
};

verus! {

/// A parsed postfix operation.
#[derive(Debug)]
pub enum PostfixOp {
    Euclidean(u8, u8),
    Span(usize),
    Arp(ArpStyle),
    Ratchet(u8),
    Stut(u8, Decimal, Decimal),
    Humanize(u8, Decimal),
    Prob(u8),
    PhaseShift(Decimal),
    Invert(i32),
    Drop(u8),
    Transpose(i32),
    Off(Decimal, Vec<PostfixOp>),
    Strum(Decimal),
    ExtractPitch(ExtractType, Option<i32>, i32),
    Chordify(Option<i32>, i32),
    VelocityOverride(u8),
    GateOverride(u8),
    Wrap,
    /// A condition: its scope, whether it gates the node (`only`) or only
    /// the modifier before it (`if`), its interval and its offset.
    Cond(CondScope, bool, usize, usize),
}

/// The view of a postfix operation: a modifier, or `off` with its shift
/// and the operations applied to the shifted copy.
pub enum SPostfix {
    Mod(Modifier),
    Off(Decimal, Seq<SPostfix>),
    Cond(CondScope, bool, usize, usize),
}

pub open spec fn postfix_view(op: PostfixOp) -> SPostfix
    decreases op,
{
    match op {
        PostfixOp::Euclidean(p, st) => SPostfix::Mod(Modifier::Euclidean(p, st)),
        PostfixOp::Span(v) => SPostfix::Mod(Modifier::Span(v)),
        PostfixOp::Arp(st) => SPostfix::Mod(Modifier::Arp(st)),
        PostfixOp::Ratchet(v) => SPostfix::Mod(Modifier::Ratchet(v)),
        PostfixOp::Stut(d, f, t) => SPostfix::Mod(Modifier::Stut(d, f, t)),
        PostfixOp::Humanize(v, t) => SPostfix::Mod(Modifier::Humanize(v, t)),
        PostfixOp::Prob(v) => SPostfix::Mod(Modifier::Probability(v)),
        PostfixOp::PhaseShift(v) => SPostfix::Mod(Modifier::PhaseShift(v)),
        PostfixOp::Invert(v) => SPostfix::Mod(Modifier::Invert(v)),
        PostfixOp::Drop(v) => SPostfix::Mod(Modifier::Drop(v)),
        PostfixOp::Transpose(v) => SPostfix::Mod(Modifier::Transpose(v)),
        PostfixOp::Off(sh, ops) => {
            proof {
                assert(decreases_to!(op => ops));
                assert(decreases_to!(ops => ops@));
            }
            SPostfix::Off(sh, postfixes_view(ops@))
        },
        PostfixOp::Strum(v) => SPostfix::Mod(Modifier::Strum(v)),
        PostfixOp::ExtractPitch(t, l, o) => SPostfix::Mod(Modifier::ExtractPitch(t, l, o)),
        PostfixOp::Chordify(l, o) => SPostfix::Mod(Modifier::Chordify(l, o)),
        PostfixOp::VelocityOverride(v) => SPostfix::Mod(Modifier::VelocityOverride(v)),
        PostfixOp::GateOverride(v) => SPostfix::Mod(Modifier::GateOverride(v)),
        PostfixOp::Wrap => SPostfix::Mod(Modifier::Wrap),
        PostfixOp::Cond(sc, g, i, o) => SPostfix::Cond(sc, g, i, o),
    }
}

pub open spec fn postfixes_view(v: Seq<PostfixOp>) -> Seq<SPostfix>
    decreases v,
{
    Seq::new(
        v.len(),
        |i: int|
            if 0 <= i < v.len() {
                proof {
                    assert(decreases_to!(v => v[i]));
                }
                postfix_view(v[i])
            } else {
                SPostfix::Mod(Modifier::Wrap)
            },
    )
}

impl View for PostfixOp {
    type V = SPostfix;

    open spec fn view(&self) -> SPostfix {
        postfix_view(*self)
    }
}

/// Attaching an operation to a node. A modifier joins the modifiers of a
/// `Modified` node, or wraps any other node. `off(shift, ops)` plays the node
/// in parallel with a copy to which `ops` and then the phase shift apply.
pub open spec fn spec_apply_postfix(acc: SNode, op: SPostfix) -> SNode
    decreases op,
{
    match op {
        SPostfix::Off(shift, ops) => {
            let shifted = spec_fold_postfix(acc, ops);
            SNode::Parallel(
                seq![
                    seq![acc],
                    seq![SNode::Modified(Box::new(shifted), seq![Modifier::PhaseShift(shift)])],
                ],
            )
        },
        SPostfix::Mod(m) => match acc {
            SNode::Modified(b, mods) => SNode::Modified(b, mods.push(m)),
            _ => SNode::Modified(Box::new(acc), seq![m]),
        },
        SPostfix::Cond(scope, gate, interval, offset) => spec_condition(acc, scope, gate, interval, offset),
    }
}

/// A condition attached to a node: `only` plays the node on the matching
/// cycles and rests on the others; `if` plays the node with its last
/// modifier on the matching cycles and without it on the others (a node
/// without modifiers stays as it is).
pub open spec fn spec_condition(acc: SNode, scope: CondScope, gate: bool, interval: usize, offset: usize) -> SNode {
    if gate {
        SNode::Condition { scope, interval, offset, then_branch: Box::new(acc), else_branch: Box::new(SNode::Rest) }
    } else {
        match acc {
            SNode::Modified(b, mods) => if mods.len() > 0 {
                SNode::Condition {
                    scope,
                    interval,
                    offset,
                    then_branch: Box::new(acc),
                    else_branch: Box::new(
                        if mods.len() == 1 {
                            *b
                        } else {
                            SNode::Modified(b, mods.drop_last())
                        },
                    ),
                }
            } else {
                acc
            },
            _ => acc,
        }
    }
}

/// Attaching a list of operations, first to last.
pub open spec fn spec_fold_postfix(acc: SNode, ops: Seq<SPostfix>) -> SNode
    decreases ops,
{
    if ops.len() == 0 {
        acc
    } else {
        proof {
            assert(decreases_to!(ops => ops[0]));
        }
        spec_fold_postfix(spec_apply_postfix(acc, ops[0]), ops.drop_first())
    }
}

/// Attaches one postfix operation to a node.
pub fn apply_postfix(acc: Node, post: PostfixOp) -> (r: Node)
    ensures
        r@ == spec_apply_postfix(acc@, post@),
    decreases post,
{
    let ghost pv = post@;
    let ghost av = acc@;
    match post {
        PostfixOp::Off(shift, mods) => {
            assert(pv == SPostfix::Off(shift, postfixes_view(mods@)));
            assert(spec_apply_postfix(av, pv) == SNode::Parallel(
                seq![
                    seq![av],
                    seq![SNode::Modified(Box::new(spec_fold_postfix(av, postfixes_view(mods@))), seq![Modifier::PhaseShift(shift)])],
                ],
            ));
            let shifted = clone_node(&acc);
            proof {
                assert(decreases_to!(post => mods));
            }
            let shifted = fold_postfix(shifted, mods);
            let ms = vec![Modifier::PhaseShift(shift)];
            assert(ms@ =~= seq![Modifier::PhaseShift(shift)]);
            let sh = Node::Modified(Box::new(shifted), ms);
            let l1 = vec![acc];
            let l2 = vec![sh];
            let lv = vec![l1, l2];
            assert(lv@ =~= seq![l1, l2]);
            let r = Node::Parallel(lv);
            proof {
                assert(r@ == SNode::Parallel(crate::ast::layers_view(lv@)));
                assert(crate::ast::nodes_view(l1@) =~= seq![acc@]);
                assert(crate::ast::nodes_view(l2@) =~= seq![sh@]);
                assert(sh@ == SNode::Modified(Box::new(shifted@), seq![Modifier::PhaseShift(shift)]));
                assert(crate::ast::layers_view(seq![l1, l2]) =~= seq![crate::ast::nodes_view(l1@), crate::ast::nodes_view(l2@)]);
                assert(r@ == spec_apply_postfix(av, pv));
            }
            r
        },
        PostfixOp::Cond(scope, gate, interval, offset) => {
            assert(pv == SPostfix::Cond(scope, gate, interval, offset));
            if gate {
                let rest_node = Node::Rest;
                assert(rest_node@ == SNode::Rest);
                let r = Node::Condition { scope, interval, offset, then_branch: Box::new(acc), else_branch: Box::new(rest_node) };
                assert(r@ == SNode::Condition { scope, interval, offset, then_branch: Box::new(av), else_branch: Box::new(SNode::Rest) });
                assert(r@ == spec_condition(av, scope, gate, interval, offset));
                r
            } else {
                match acc {
                    Node::Modified(b, mods) => {
                        if mods.len() > 0 {
                            let inner = clone_node(&b);
                            let else_node = if mods.len() == 1 {
                                inner
                            } else {
                                let mut rest = mods.clone();
                                assert(rest@ =~= mods@);
                                rest.pop();
                                assert(rest@ =~= mods@.drop_last());
                                Node::Modified(Box::new(inner), rest)
                            };
                            let ghost ev = else_node@;
                            assert(ev == (if mods@.len() == 1 {
                                crate::ast::node_view(*b)
                            } else {
                                SNode::Modified(Box::new(crate::ast::node_view(*b)), mods@.drop_last())
                            }));
                            let whole = Node::Modified(b, mods);
                            assert(whole@ == av);
                            let r = Node::Condition {
                                scope,
                                interval,
                                offset,
                                then_branch: Box::new(whole),
                                else_branch: Box::new(else_node),
                            };
                            assert(r@ == SNode::Condition { scope, interval, offset, then_branch: Box::new(av), else_branch: Box::new(ev) });
                            assert(r@ == spec_condition(av, scope, gate, interval, offset));
                            r
                        } else {
                            Node::Modified(b, mods)
                        }
                    },
                    a => a,
                }
            }
        },
        other => {
            let m = match other {
                PostfixOp::Euclidean(p, s) => Modifier::Euclidean(p, s),
                PostfixOp::Span(v) => Modifier::Span(v),
                PostfixOp::Arp(st) => Modifier::Arp(st),
                PostfixOp::Ratchet(v) => Modifier::Ratchet(v),
                PostfixOp::Stut(d, f, t) => Modifier::Stut(d, f, t),
                PostfixOp::Humanize(v, t) => Modifier::Humanize(v, t),
                PostfixOp::Prob(v) => Modifier::Probability(v),
                PostfixOp::PhaseShift(v) => Modifier::PhaseShift(v),
                PostfixOp::Invert(v) => Modifier::Invert(v),
                PostfixOp::Drop(v) => Modifier::Drop(v),
                PostfixOp::Transpose(v) => Modifier::Transpose(v),
                PostfixOp::Strum(v) => Modifier::Strum(v),
                PostfixOp::ExtractPitch(t, l, o) => Modifier::ExtractPitch(t, l, o),
                PostfixOp::Chordify(l, o) => Modifier::Chordify(l, o),
                PostfixOp::VelocityOverride(v) => Modifier::VelocityOverride(v),
                PostfixOp::GateOverride(v) => Modifier::GateOverride(v),
                PostfixOp::Wrap => Modifier::Wrap,
                PostfixOp::Off(sh, _) => Modifier::PhaseShift(sh),
                PostfixOp::Cond(..) => Modifier::Wrap,
            };
            assert(other@ == SPostfix::Mod(m));
            match acc {
                Node::Modified(b, mut mods) => {
                    mods.push(m);
                    Node::Modified(b, mods)
                },
                a => {
                    let ms = vec![m];
                    assert(ms@ =~= seq![m]);
                    let r = Node::Modified(Box::new(a), ms);
                    assert(r@ == SNode::Modified(Box::new(a@), seq![m]));
                    r
                },
            }
        },
    }
}

/// Attaches postfix operations, first to last.
pub fn fold_postfix(acc: Node, ops_in: Vec<PostfixOp>) -> (r: Node)
    ensures
        r@ == spec_fold_postfix(acc@, postfixes_view(ops_in@)),
    decreases ops_in,
{
    let ghost target = spec_fold_postfix(acc@, postfixes_view(ops_in@));
    let ghost whole = ops_in@;
    let mut ops = ops_in;
    let mut acc = acc;
    let ghost mut j: int = 0;
    while ops.len() > 0
        invariant
            0 <= j <= whole.len(),
            ops@ == whole.skip(j),
            spec_fold_postfix(acc@, postfixes_view(ops@)) == target,
            whole == ops_in@,
        decreases ops.len(),
    {
        let ghost before = ops@;
        let op = ops.remove(0);
        proof {
            assert(op == whole[j]);
            assert(postfixes_view(before)[0] == op@);
            assert(postfixes_view(before).drop_first() =~= postfixes_view(ops@));
            assert(ops@ =~= whole.skip(j + 1));
            assert(decreases_to!(ops_in => ops_in@));
            assert(decreases_to!(ops_in@ => ops_in@[j]));
            j = j + 1;
        }
        acc = apply_postfix(acc, op);
    }
    proof {
        assert(postfixes_view(ops@) =~= Seq::<SPostfix>::empty());
    }
    acc
}

} // verus!

verus! {

/// An optional argument label (`name:`) before an argument: the position
/// after it, or `pos` when there is none.
pub open spec fn spec_opt_label(s: Seq<char>, pos: usize) -> usize {
    match spec_ident(s, spec_padding(s, pos)) {
        Some(e) => match spec_pad_char(s, spec_padding(s, e), ':') {
            Some(p) => p,
            None => pos,
        },
        None => pos,
    }
}

pub proof fn lemma_opt_label(s: Seq<char>, pos: usize)
    requires
        pos <= s.len() <= usize::MAX,
    ensures
        pos <= spec_opt_label(s, pos) <= s.len(),
{
    lemma_padding_bounds(s, pos);
    lemma_ident(s, spec_padding(s, pos));
    if let Some(e) = spec_ident(s, spec_padding(s, pos)) {
        lemma_padding_bounds(s, e);
        lemma_pad_char_bounds(s, spec_padding(s, e), ':');
    }
}

fn opt_label(s: &Vec<char>, pos: usize) -> (r: usize)
    requires
        pos <= s@.len() <= usize::MAX,
    ensures
        r == spec_opt_label(s@, pos),
        pos <= r <= s@.len(),
{
    proof {
        lemma_opt_label(s@, pos);
    }
    let p0 = padding(s, pos);
    match ident(s, p0) {
        Some(e) => {
            let p1 = padding(s, e);
            match pad_char(s, p1, ':') {
                Some(p) => p,
                None => pos,
            }
        },
        None => pos,
    }
}

/// A keyword, `(`, and an optional label: where the first argument starts.
pub open spec fn spec_call_open(s: Seq<char>, pos: usize, w: Seq<char>) -> Option<usize> {
    match spec_kw(s, pos, w) {
        Some(p1) => match spec_pad_char(s, p1, '(') {
            Some(p2) => Some(spec_opt_label(s, p2)),
            None => None,
        },
        None => None,
    }
}

pub proof fn lemma_call_open(s: Seq<char>, pos: usize, w: Seq<char>)
    requires
        pos <= s.len() <= usize::MAX,
    ensures
        spec_call_open(s, pos, w) matches Some(e) ==> pos < e <= s.len(),
{
    lemma_kw_bounds(s, pos, w);
    if let Some(p1) = spec_kw(s, pos, w) {
        lemma_pad_char_bounds(s, p1, '(');
        if let Some(p2) = spec_pad_char(s, p1, '(') {
            lemma_opt_label(s, p2);
        }
    }
}

fn call_open(s: &Vec<char>, pos: usize, w: &[char]) -> (r: Option<usize>)
    requires
        pos <= s@.len() <= usize::MAX,
    ensures
        r == spec_call_open(s@, pos, w@),
        r matches Some(e) ==> pos < e <= s@.len(),
{
    proof {
        lemma_call_open(s@, pos, w@);
    }
    let p1 = kw(s, pos, w)?;
    let p2 = pad_char(s, p1, '(')?;
    Some(opt_label(s, p2))
}

/// A `,` and an optional label: where the next argument starts.
pub open spec fn spec_next_arg(s: Seq<char>, pos: usize) -> Option<usize> {
    match spec_pad_char(s, pos, ',') {
        Some(p) => Some(spec_opt_label(s, p)),
        None => None,
    }
}

pub proof fn lemma_next_arg(s: Seq<char>, pos: usize)
    requires
        pos <= s.len() <= usize::MAX,
    ensures
        spec_next_arg(s, pos) matches Some(e) ==> pos < e <= s.len(),
{
    lemma_pad_char_bounds(s, pos, ',');
    if let Some(p) = spec_pad_char(s, pos, ',') {
        lemma_opt_label(s, p);
    }
}

fn next_arg(s: &Vec<char>, pos: usize) -> (r: Option<usize>)
    requires
        pos <= s@.len() <= usize::MAX,
    ensures
        r == spec_next_arg(s@, pos),
        r matches Some(e) ==> pos < e <= s@.len(),
{
    proof {
        lemma_next_arg(s@, pos);
    }
    let p = pad_char(s, pos, ',')?;
    Some(opt_label(s, p))
}

/// A method whose only argument is a `u8`: `name(n)` or `alt(n)`.
pub open spec fn spec_u8_call(s: Seq<char>, pos: usize, w1: Seq<char>, w2: Seq<char>) -> Option<(u8, usize)> {
    let open = match spec_call_open(s, pos, w1) {
        Some(p) => Some(p),
        None => match spec_kw(s, pos, w1) {
            Some(_) => None,
            None => spec_call_open(s, pos, w2),
        },
    };
    match open {
        Some(p1) => match spec_int_u8(s, p1) {
            Some((v, p2)) => match spec_pad_char(s, p2, ')') {
                Some(p3) => Some((v, p3)),
                None => None,
            },
            None => None,
        },
        None => None,
    }
}

fn u8_call(s: &Vec<char>, pos: usize, w1: &[char], w2: &[char]) -> (r: Option<(u8, usize)>)
    requires
        pos <= s@.len() <= usize::MAX,
    ensures
        r == spec_u8_call(s@, pos, w1@, w2@),
        r matches Some((_, e)) ==> pos < e <= s@.len(),
{
    let p1 = match call_open(s, pos, w1) {
        Some(p) => p,
        None => {
            if kw(s, pos, w1).is_some() {
                return None;
            }
            call_open(s, pos, w2)?
        },
    };
    let (v, p2) = int_u8(s, p1)?;
    let p3 = pad_char(s, p2, ')')?;
    Some((v, p3))
}

/// A method whose only argument is a decimal: `name(x)`.
pub open spec fn spec_dec_call(s: Seq<char>, pos: usize, w: Seq<char>) -> Option<(Decimal, usize)> {
    match spec_call_open(s, pos, w) {
        Some(p1) => match spec_decimal(s, p1) {
            Some((v, p2)) => match spec_pad_char(s, p2, ')') {
                Some(p3) => Some((v, p3)),
                None => None,
            },
            None => None,
        },
        None => None,
    }
}

fn dec_call(s: &Vec<char>, pos: usize, w: &[char]) -> (r: Option<(Decimal, usize)>)
    requires
        pos <= s@.len() <= usize::MAX,
    ensures
        r == spec_dec_call(s@, pos, w@),
        r matches Some((_, e)) ==> pos < e <= s@.len(),
{
    let p1 = call_open(s, pos, w)?;
    let (v, p2) = float_f64(s, p1)?;
    let p3 = pad_char(s, p2, ')')?;
    Some((v, p3))
}

pub open spec fn w_euclid() -> Seq<char> { seq!['e', 'u', 'c', 'l', 'i', 'd'] }
pub open spec fn w_e() -> Seq<char> { seq!['E'] }
pub open spec fn w_arp() -> Seq<char> { seq!['a', 'r', 'p'] }
pub open spec fn w_stut() -> Seq<char> { seq!['s', 't', 'u', 't'] }
pub open spec fn w_drop() -> Seq<char> { seq!['d', 'r', 'o', 'p'] }
pub open spec fn w_shift() -> Seq<char> { seq!['s', 'h', 'i', 'f', 't'] }
pub open spec fn w_humanize() -> Seq<char> { seq!['h', 'u', 'm', 'a', 'n', 'i', 'z', 'e'] }
pub open spec fn w_ms() -> Seq<char> { seq!['m', 's'] }
pub open spec fn w_off() -> Seq<char> { seq!['o', 'f', 'f'] }
pub open spec fn w_strum() -> Seq<char> { seq!['s', 't', 'r', 'u', 'm'] }
pub open spec fn w_extract() -> Seq<char> { seq!['e', 'x', 't', 'r', 'a', 'c', 't'] }
pub open spec fn w_chordify() -> Seq<char> { seq!['c', 'h', 'o', 'r', 'd', 'i', 'f', 'y'] }
pub open spec fn w_wrap() -> Seq<char> { seq!['w', 'r', 'a', 'p'] }
pub open spec fn w_vel() -> Seq<char> { seq!['v', 'e', 'l'] }
pub open spec fn w_v() -> Seq<char> { seq!['v'] }
pub open spec fn w_gate() -> Seq<char> { seq!['g', 'a', 't', 'e'] }
pub open spec fn w_g() -> Seq<char> { seq!['g'] }

/// `euclid(pulses, steps)` (or `E(..)`).
pub open spec fn spec_m_euclid(s: Seq<char>, pos: usize) -> Option<(SPostfix, usize)> {
    let open = match spec_call_open(s, pos, w_euclid()) {
        Some(p) => Some(p),
        None => match spec_kw(s, pos, w_euclid()) {
            Some(_) => None,
            None => spec_call_open(s, pos, w_e()),
        },
    };
    match open {
        Some(p1) => match spec_int_u8(s, p1) {
            Some((pu, p2)) => match spec_next_arg(s, p2) {
                Some(p3) => match spec_int_u8(s, p3) {
                    Some((st, p4)) => match spec_pad_char(s, p4, ')') {
                        Some(p5) => Some((SPostfix::Mod(Modifier::Euclidean(pu, st)), p5)),
                        None => None,
                    },
                    None => None,
                },
                None => None,
            },
            None => None,
        },
        None => None,
    }
}

fn m_euclid(s: &Vec<char>, pos: usize) -> (r: Option<(PostfixOp, usize)>)
    requires
        pos <= s@.len() <= usize::MAX,
    ensures
        crate::ast::agrees(r, spec_m_euclid(s@, pos)),
        r matches Some((_, e)) ==> pos < e <= s@.len(),
{
    let w1 = ['e', 'u', 'c', 'l', 'i', 'd'];
    let w2 = ['E'];
    assert(w1@ =~= w_euclid());
    assert(w2@ =~= w_e());
    let p1 = match call_open(s, pos, &w1) {
        Some(p) => p,
        None => {
            if kw(s, pos, &w1).is_some() {
                return None;
            }
            call_open(s, pos, &w2)?
        },
    };
    let (pu, p2) = int_u8(s, p1)?;
    let p3 = next_arg(s, p2)?;
    let (st, p4) = int_u8(s, p3)?;
    let p5 = pad_char(s, p4, ')')?;
    Some((PostfixOp::Euclidean(pu, st), p5))
}

/// The arpeggio styles, in the order in which they are tried.
pub open spec fn arp_words() -> Seq<Seq<char>> {
    seq![
        seq!['u', 'p', 'd', 'o', 'w', 'n'], seq!['d', 'o', 'w', 'n', 'u', 'p'],
        seq!['c', 'o', 'n', 'v', 'e', 'r', 'g', 'e'], seq!['d', 'i', 'v', 'e', 'r', 'g', 'e'],
        seq!['p', 'i', 'n', 'k', 'y', 'u', 'p', 'd', 'o', 'w', 'n'], seq!['p', 'i', 'n', 'k', 'y', 'u', 'p'],
        seq!['u', 'p'], seq!['d', 'o', 'w', 'n'],
    ]
}

pub open spec fn arp_style_of(k: int) -> ArpStyle {
    if k == 0 {
        ArpStyle::UpDown
    } else if k == 1 {
        ArpStyle::DownUp
    } else if k == 2 {
        ArpStyle::Converge
    } else if k == 3 {
        ArpStyle::Diverge
    } else if k == 4 {
        ArpStyle::PinkyUpDown
    } else if k == 5 {
        ArpStyle::PinkyUp
    } else if k == 6 {
        ArpStyle::Up
    } else {
        ArpStyle::Down
    }
}

/// `arp(style)`.
pub open spec fn spec_m_arp(s: Seq<char>, pos: usize) -> Option<(SPostfix, usize)> {
    match spec_call_open(s, pos, w_arp()) {
        Some(p1) => match spec_first_lit(s, p1, arp_words(), 0) {
            Some((k, p2)) => match spec_pad_char(s, p2, ')') {
                Some(p3) => Some((SPostfix::Mod(Modifier::Arp(arp_style_of(k))), p3)),
                None => None,
            },
            None => None,
        },
        None => None,
    }
}

fn m_arp(s: &Vec<char>, pos: usize) -> (r: Option<(PostfixOp, usize)>)
    requires
        pos <= s@.len() <= usize::MAX,
    ensures
        crate::ast::agrees(r, spec_m_arp(s@, pos)),
        r matches Some((_, e)) ==> pos < e <= s@.len(),
{
    let w = ['a', 'r', 'p'];
    assert(w@ =~= w_arp());
    let words: [&[char]; 8] = [
        &['u', 'p', 'd', 'o', 'w', 'n'], &['d', 'o', 'w', 'n', 'u', 'p'],
        &['c', 'o', 'n', 'v', 'e', 'r', 'g', 'e'], &['d', 'i', 'v', 'e', 'r', 'g', 'e'],
        &['p', 'i', 'n', 'k', 'y', 'u', 'p', 'd', 'o', 'w', 'n'], &['p', 'i', 'n', 'k', 'y', 'u', 'p'],
        &['u', 'p'], &['d', 'o', 'w', 'n'],
    ];
    proof {
        let ws = words@.map_values(|w: &[char]| w@);
        assert(ws[0] =~= arp_words()[0]);
        assert(ws[1] =~= arp_words()[1]);
        assert(ws[2] =~= arp_words()[2]);
        assert(ws[3] =~= arp_words()[3]);
        assert(ws[4] =~= arp_words()[4]);
        assert(ws[5] =~= arp_words()[5]);
        assert(ws[6] =~= arp_words()[6]);
        assert(ws[7] =~= arp_words()[7]);
        assert(ws =~= arp_words());
    }
    let p1 = call_open(s, pos, &w)?;
    let (k, p2) = first_lit(s, p1, &words)?;
    let p3 = pad_char(s, p2, ')')?;
    let st = if k == 0 {
        ArpStyle::UpDown
    } else if k == 1 {
        ArpStyle::DownUp
    } else if k == 2 {
        ArpStyle::Converge
    } else if k == 3 {
        ArpStyle::Diverge
    } else if k == 4 {
        ArpStyle::PinkyUpDown
    } else if k == 5 {
        ArpStyle::PinkyUp
    } else if k == 6 {
        ArpStyle::Up
    } else {
        ArpStyle::Down
    };
    Some((PostfixOp::Arp(st), p3))
}

/// `stut(depth, feedback, shift)`.
pub open spec fn spec_m_stut(s: Seq<char>, pos: usize) -> Option<(SPostfix, usize)> {
    match spec_call_open(s, pos, w_stut()) {
        Some(p1) => match spec_int_u8(s, p1) {
            Some((d, p2)) => match spec_next_arg(s, p2) {
                Some(p3) => match spec_decimal(s, p3) {
                    Some((f, p4)) => match spec_next_arg(s, p4) {
                        Some(p5) => match spec_decimal(s, p5) {
                            Some((t, p6)) => match spec_pad_char(s, p6, ')') {
                                Some(p7) => Some((SPostfix::Mod(Modifier::Stut(d, f, t)), p7)),
                                None => None,
                            },
                            None => None,
                        },
                        None => None,
                    },
                    None => None,
                },
                None => None,
            },
            None => None,
        },
        None => None,
    }
}

fn m_stut(s: &Vec<char>, pos: usize) -> (r: Option<(PostfixOp, usize)>)
    requires
        pos <= s@.len() <= usize::MAX,
    ensures
        crate::ast::agrees(r, spec_m_stut(s@, pos)),
        r matches Some((_, e)) ==> pos < e <= s@.len(),
{
    let w = ['s', 't', 'u', 't'];
    assert(w@ =~= w_stut());
    let p1 = call_open(s, pos, &w)?;
    let (d, p2) = int_u8(s, p1)?;
    let p3 = next_arg(s, p2)?;
    let (f, p4) = float_f32(s, p3)?;
    let p5 = next_arg(s, p4)?;
    let (t, p6) = float_f32(s, p5)?;
    let p7 = pad_char(s, p6, ')')?;
    Some((PostfixOp::Stut(d, f, t), p7))
}

/// `humanize`, optionally with `(velocity[, time[ms]])`; absent values are 0.
pub open spec fn spec_m_humanize(s: Seq<char>, pos: usize) -> Option<(SPostfix, usize)> {
    match spec_kw(s, pos, w_humanize()) {
        Some(p1) => {
            let args = match spec_pad_char(s, p1, '(') {
                Some(p2) => {
                    let inner = match spec_int_u8(s, spec_opt_label(s, p2)) {
                        Some((v, q1)) => {
                            let t = match spec_next_arg(s, q1) {
                                Some(q2) => match spec_decimal(s, q2) {
                                    Some((t, q3)) => {
                                        let q4 = match spec_kw(s, q3, w_ms()) {
                                            Some(q) => q,
                                            None => q3,
                                        };
                                        Some((t, q4))
                                    },
                                    None => None,
                                },
                                None => None,
                            };
                            match t {
                                Some((t, q4)) => Some((v, t, q4)),
                                None => Some((v, zero_decimal(), q1)),
                            }
                        },
                        None => None,
                    };
                    let (v, t, q5) = match inner {
                        Some(x) => x,
                        None => (0u8, zero_decimal(), p2),
                    };
                    match spec_pad_char(s, q5, ')') {
                        Some(q6) => Some((v, t, q6)),
                        None => None,
                    }
                },
                None => None,
            };
            match args {
                Some((v, t, e)) => Some((SPostfix::Mod(Modifier::Humanize(v, t)), e)),
                None => Some((SPostfix::Mod(Modifier::Humanize(0, zero_decimal())), p1)),
            }
        },
        None => None,
    }
}

pub open spec fn zero_decimal() -> Decimal {
    Decimal { negative: false, mantissa: 0, scale: 0 }
}

fn m_humanize(s: &Vec<char>, pos: usize) -> (r: Option<(PostfixOp, usize)>)
    requires
        pos <= s@.len() <= usize::MAX,
    ensures
        crate::ast::agrees(r, spec_m_humanize(s@, pos)),
        r matches Some((_, e)) ==> pos < e <= s@.len(),
{
    let w = ['h', 'u', 'm', 'a', 'n', 'i', 'z', 'e'];
    let wms = ['m', 's'];
    assert(w@ =~= w_humanize());
    assert(wms@ =~= w_ms());
    proof {
        lemma_kw_bounds(s@, pos, w@);
    }
    let p1 = kw(s, pos, &w)?;
    let zero = Decimal { negative: false, mantissa: 0, scale: 0 };
    if let Some(p2) = pad_char(s, p1, '(') {
        let l = opt_label(s, p2);
        let (v, t, q5) = match int_u8(s, l) {
            Some((v, q1)) => {
                let mut res = (v, zero, q1);
                if let Some(q2) = next_arg(s, q1) {
                    if let Some((t, q3)) = float_f64(s, q2) {
                        let q4 = match kw(s, q3, &wms) {
                            Some(q) => q,
                            None => q3,
                        };
                        res = (v, t, q4);
                    }
                }
                res
            },
            None => (0u8, zero, p2),
        };
        if let Some(q6) = pad_char(s, q5, ')') {
            return Some((PostfixOp::Humanize(v, t), q6));
        }
    }
    Some((PostfixOp::Humanize(0, zero), p1))
}

/// The extraction ends, in the order in which they are tried.
pub open spec fn extract_words() -> Seq<Seq<char>> {
    seq![
        seq!['h', 'i', 'g', 'h', 'e', 's', 't'], seq!['h', 'i', 'g', 'h'],
        seq!['l', 'o', 'w', 'e', 's', 't'], seq!['l', 'o', 'w'],
    ]
}

/// An `i32` argument with padding round it.
pub open spec fn spec_padded_i32(s: Seq<char>, pos: usize) -> Option<(i32, usize)> {
    match spec_int_i32(s, spec_opt_label(s, spec_padding(s, pos))) {
        Some((v, e)) => Some((v, spec_padding(s, e))),
        None => None,
    }
}

fn padded_i32(s: &Vec<char>, pos: usize) -> (r: Option<(i32, usize)>)
    requires
        pos <= s@.len() <= usize::MAX,
    ensures
        r == spec_padded_i32(s@, pos),
        r matches Some((_, e)) ==> pos < e <= s@.len(),
{
    let p0 = padding(s, pos);
    let p1 = opt_label(s, p0);
    let (v, e) = int_i32(s, p1)?;
    Some((v, padding(s, e)))
}

/// `extract(end[, limit[, offset]])`: by default one note, no offset.
pub open spec fn spec_m_extract(s: Seq<char>, pos: usize) -> Option<(SPostfix, usize)> {
    match spec_call_open(s, pos, w_extract()) {
        Some(p1) => {
            let p1p = spec_padding(s, p1);
            match spec_first_lit(s, p1p, extract_words(), 0) {
                Some((k, e)) => {
                    let p2 = spec_padding(s, e);
                    let t = if k <= 1 {
                        ExtractType::Highest
                    } else {
                        ExtractType::Lowest
                    };
                    let args = match spec_pad_char(s, p2, ',') {
                        Some(q1) => match spec_padded_i32(s, q1) {
                            Some((l, q2)) => {
                                let (o, q4) = match spec_pad_char(s, q2, ',') {
                                    Some(q3) => match spec_padded_i32(s, q3) {
                                        Some((o, q4)) => (o, q4),
                                        None => (0i32, q2),
                                    },
                                    None => (0i32, q2),
                                };
                                Some((l, o, q4))
                            },
                            None => None,
                        },
                        None => None,
                    };
                    let (l, o, p3) = match args {
                        Some(x) => x,
                        None => (1i32, 0i32, p2),
                    };
                    match spec_pad_char(s, p3, ')') {
                        Some(p4) => Some((SPostfix::Mod(Modifier::ExtractPitch(t, Some(l), o)), p4)),
                        None => None,
                    }
                },
                None => None,
            }
        },
        None => None,
    }
}

fn m_extract(s: &Vec<char>, pos: usize) -> (r: Option<(PostfixOp, usize)>)
    requires
        pos <= s@.len() <= usize::MAX,
    ensures
        crate::ast::agrees(r, spec_m_extract(s@, pos)),
        r matches Some((_, e)) ==> pos < e <= s@.len(),
{
    let w = ['e', 'x', 't', 'r', 'a', 'c', 't'];
    assert(w@ =~= w_extract());
    let words: [&[char]; 4] = [
        &['h', 'i', 'g', 'h', 'e', 's', 't'], &['h', 'i', 'g', 'h'], &['l', 'o', 'w', 'e', 's', 't'],
        &['l', 'o', 'w'],
    ];
    proof {
        let ws = words@.map_values(|w: &[char]| w@);
        assert(ws[0] =~= extract_words()[0]);
        assert(ws[1] =~= extract_words()[1]);
        assert(ws[2] =~= extract_words()[2]);
        assert(ws[3] =~= extract_words()[3]);
        assert(ws =~= extract_words());
    }
    let p1 = call_open(s, pos, &w)?;
    let p1p = padding(s, p1);
    let (k, e) = first_lit(s, p1p, &words)?;
    let p2 = padding(s, e);
    let t = if k <= 1 {
        ExtractType::Highest
    } else {
        ExtractType::Lowest
    };
    let mut l: i32 = 1;
    let mut o: i32 = 0;
    let mut p3 = p2;
    if let Some(q1) = pad_char(s, p2, ',') {
        if let Some((lv, q2)) = padded_i32(s, q1) {
            l = lv;
            p3 = q2;
            if let Some(q3) = pad_char(s, q2, ',') {
                if let Some((ov, q4)) = padded_i32(s, q3) {
                    o = ov;
                    p3 = q4;
                }
            }
        }
    }
    let p4 = pad_char(s, p3, ')')?;
    Some((PostfixOp::ExtractPitch(t, Some(l), o), p4))
}

/// `chordify` with optional `(limit[, offset])`.
pub open spec fn spec_m_chordify(s: Seq<char>, pos: usize) -> Option<(SPostfix, usize)> {
    match spec_kw(s, pos, w_chordify()) {
        Some(p1) => {
            let args = match spec_pad_char(s, p1, '(') {
                Some(p2) => match spec_padded_i32(s, p2) {
                    Some((l, q1)) => {
                        let (o, q3) = match spec_pad_char(s, q1, ',') {
                            Some(q2) => match spec_padded_i32(s, q2) {
                                Some((o, q3)) => (o, q3),
                                None => (0i32, q1),
                            },
                            None => (0i32, q1),
                        };
                        match spec_pad_char(s, q3, ')') {
                            Some(q4) => Some((l, o, q4)),
                            None => None,
                        }
                    },
                    None => None,
                },
                None => None,
            };
            match args {
                Some((l, o, e)) => Some((SPostfix::Mod(Modifier::Chordify(Some(l), o)), e)),
                None => Some((SPostfix::Mod(Modifier::Chordify(None, 0)), p1)),
            }
        },
        None => None,
    }
}

fn m_chordify(s: &Vec<char>, pos: usize) -> (r: Option<(PostfixOp, usize)>)
    requires
        pos <= s@.len() <= usize::MAX,
    ensures
        crate::ast::agrees(r, spec_m_chordify(s@, pos)),
        r matches Some((_, e)) ==> pos < e <= s@.len(),
{
    let w = ['c', 'h', 'o', 'r', 'd', 'i', 'f', 'y'];
    assert(w@ =~= w_chordify());
    proof {
        lemma_kw_bounds(s@, pos, w@);
    }
    let p1 = kw(s, pos, &w)?;
    if let Some(p2) = pad_char(s, p1, '(') {
        if let Some((l, q1)) = padded_i32(s, p2) {
            let mut o: i32 = 0;
            let mut q3 = q1;
            if let Some(q2) = pad_char(s, q1, ',') {
                if let Some((ov, qq)) = padded_i32(s, q2) {
                    o = ov;
                    q3 = qq;
                }
            }
            if let Some(q4) = pad_char(s, q3, ')') {
                return Some((PostfixOp::Chordify(Some(l), o), q4));
            }
        }
    }
    Some((PostfixOp::Chordify(None, 0), p1))
}

/// `wrap`, optionally followed by `()`.
pub open spec fn spec_m_wrap(s: Seq<char>, pos: usize) -> Option<(SPostfix, usize)> {
    match spec_kw(s, pos, w_wrap()) {
        Some(p1) => {
            let e = match spec_pad_char(s, p1, '(') {
                Some(p2) => match spec_pad_char(s, p2, ')') {
                    Some(p3) => p3,
                    None => p1,
                },
                None => p1,
            };
            Some((SPostfix::Mod(Modifier::Wrap), e))
        },
        None => None,
    }
}

fn m_wrap(s: &Vec<char>, pos: usize) -> (r: Option<(PostfixOp, usize)>)
    requires
        pos <= s@.len() <= usize::MAX,
    ensures
        crate::ast::agrees(r, spec_m_wrap(s@, pos)),
        r matches Some((_, e)) ==> pos < e <= s@.len(),
{
    let w = ['w', 'r', 'a', 'p'];
    assert(w@ =~= w_wrap());
    proof {
        lemma_kw_bounds(s@, pos, w@);
    }
    let p1 = kw(s, pos, &w)?;
    let mut e = p1;
    if let Some(p2) = pad_char(s, p1, '(') {
        if let Some(p3) = pad_char(s, p2, ')') {
            e = p3;
        }
    }
    Some((PostfixOp::Wrap, e))
}

/// The methods that take no nested operations, in the order in which they are tried.
pub open spec fn spec_simple_method(s: Seq<char>, m: usize) -> Option<(SPostfix, usize)> {
    if spec_m_euclid(s, m) is Some {
        spec_m_euclid(s, m)
    } else if spec_m_arp(s, m) is Some {
        spec_m_arp(s, m)
    } else if spec_m_stut(s, m) is Some {
        spec_m_stut(s, m)
    } else if spec_u8_call(s, m, w_drop(), w_drop()) is Some {
        let (v, e) = spec_u8_call(s, m, w_drop(), w_drop()).unwrap();
        Some((SPostfix::Mod(Modifier::Drop(v)), e))
    } else if spec_dec_call(s, m, w_shift()) is Some {
        let (v, e) = spec_dec_call(s, m, w_shift()).unwrap();
        Some((SPostfix::Mod(Modifier::PhaseShift(v)), e))
    } else {
        spec_m_humanize(s, m)
    }
}

/// The methods tried after `off`.
pub open spec fn spec_late_method(s: Seq<char>, m: usize) -> Option<(SPostfix, usize)> {
    if spec_dec_call(s, m, w_strum()) is Some {
        let (v, e) = spec_dec_call(s, m, w_strum()).unwrap();
        Some((SPostfix::Mod(Modifier::Strum(v)), e))
    } else if spec_m_extract(s, m) is Some {
        spec_m_extract(s, m)
    } else if spec_m_chordify(s, m) is Some {
        spec_m_chordify(s, m)
    } else if spec_m_wrap(s, m) is Some {
        spec_m_wrap(s, m)
    } else if spec_u8_call(s, m, w_vel(), w_v()) is Some {
        let (v, e) = spec_u8_call(s, m, w_vel(), w_v()).unwrap();
        Some((SPostfix::Mod(Modifier::VelocityOverride(v)), e))
    } else if spec_u8_call(s, m, w_gate(), w_g()) is Some {
        let (v, e) = spec_u8_call(s, m, w_gate(), w_g()).unwrap();
        Some((SPostfix::Mod(Modifier::GateOverride(v)), e))
    } else {
        None
    }
}

#[verifier::rlimit(40)]
fn simple_method(s: &Vec<char>, m: usize) -> (r: Option<(PostfixOp, usize)>)
    requires
        m <= s@.len() <= usize::MAX,
    ensures
        crate::ast::agrees(r, spec_simple_method(s@, m)),
        r matches Some((_, e)) ==> m < e <= s@.len(),
{
    if let Some(x) = m_euclid(s, m) {
        return Some(x);
    }
    if let Some(x) = m_arp(s, m) {
        return Some(x);
    }
    if let Some(x) = m_stut(s, m) {
        return Some(x);
    }
    let wd = ['d', 'r', 'o', 'p'];
    assert(wd@ =~= w_drop());
    if let Some((v, e)) = u8_call(s, m, &wd, &wd) {
        return Some((PostfixOp::Drop(v), e));
    }
    let ws = ['s', 'h', 'i', 'f', 't'];
    assert(ws@ =~= w_shift());
    if let Some((v, e)) = dec_call(s, m, &ws) {
        return Some((PostfixOp::PhaseShift(v), e));
    }
    m_humanize(s, m)
}

#[verifier::rlimit(40)]
fn late_method(s: &Vec<char>, m: usize) -> (r: Option<(PostfixOp, usize)>)
    requires
        m <= s@.len() <= usize::MAX,
    ensures
        crate::ast::agrees(r, spec_late_method(s@, m)),
        r matches Some((_, e)) ==> m < e <= s@.len(),
{
    let wst = ['s', 't', 'r', 'u', 'm'];
    assert(wst@ =~= w_strum());
    if let Some((v, e)) = dec_call(s, m, &wst) {
        return Some((PostfixOp::Strum(v), e));
    }
    if let Some(x) = m_extract(s, m) {
        return Some(x);
    }
    if let Some(x) = m_chordify(s, m) {
        return Some(x);
    }
    if let Some(x) = m_wrap(s, m) {
        return Some(x);
    }
    let wv = ['v', 'e', 'l'];
    let wv1 = ['v'];
    assert(wv@ =~= w_vel());
    assert(wv1@ =~= w_v());
    if let Some((v, e)) = u8_call(s, m, &wv, &wv1) {
        return Some((PostfixOp::VelocityOverride(v), e));
    }
    let wg = ['g', 'a', 't', 'e'];
    let wg1 = ['g'];
    assert(wg@ =~= w_gate());
    assert(wg1@ =~= w_g());
    if let Some((v, e)) = u8_call(s, m, &wg, &wg1) {
        return Some((PostfixOp::GateOverride(v), e));
    }
    None
}

/// The symbolic operations: `*n` ratchet, `?n` probability, `@n` velocity,
/// `%n` gate, `^n` inversion,
/// `/n` span, and `+n` / `-n` transposition (which must be followed by a
/// character other than `#` and `b`).
pub open spec fn spec_symbolic(s: Seq<char>, pos: usize) -> Option<(SPostfix, usize)> {
    if spec_just(s, pos, '*') is Some {
        match spec_int_u8(s, spec_padding(s, (pos + 1) as usize)) {
            Some((v, e)) => Some((SPostfix::Mod(Modifier::Ratchet(v)), spec_padding(s, e))),
            None => None,
        }
    } else if spec_just(s, pos, '?') is Some {
        match spec_int_u8(s, spec_padding(s, (pos + 1) as usize)) {
            Some((v, e)) => Some((SPostfix::Mod(Modifier::Probability(v)), spec_padding(s, e))),
            None => None,
        }
    } else if spec_just(s, pos, '@') is Some {
        match spec_int_u8(s, spec_padding(s, (pos + 1) as usize)) {
            Some((v, e)) => Some((SPostfix::Mod(Modifier::VelocityOverride(v)), spec_padding(s, e))),
            None => None,
        }
    } else if spec_just(s, pos, '%') is Some {
        match spec_int_u8(s, spec_padding(s, (pos + 1) as usize)) {
            Some((v, e)) => Some((SPostfix::Mod(Modifier::GateOverride(v)), spec_padding(s, e))),
            None => None,
        }
    } else if spec_just(s, pos, '^') is Some {
        match spec_int_i32(s, spec_padding(s, (pos + 1) as usize)) {
            Some((v, e)) => Some((SPostfix::Mod(Modifier::Invert(v)), spec_padding(s, e))),
            None => None,
        }
    } else if spec_just(s, pos, '/') is Some {
        match spec_int_usize(s, spec_padding(s, (pos + 1) as usize)) {
            Some((v, e)) => Some((SPostfix::Mod(Modifier::Span(v)), spec_padding(s, e))),
            None => None,
        }
    } else if spec_just(s, pos, '+') is Some || spec_just(s, pos, '-') is Some {
        match spec_int_usize(s, (pos + 1) as usize) {
            Some((v, e)) => if e < s.len() && s[e as int] != '#' && s[e as int] != 'b' {
                let t = v as i32;
                let amt: int = if spec_just(s, pos, '+') is Some {
                    t as int
                } else if t == i32::MIN {
                    t as int
                } else {
                    -t
                };
                Some((SPostfix::Mod(Modifier::Transpose(amt as i32)), e))
            } else {
                None
            },
            None => None,
        }
    } else {
        None
    }
}

pub proof fn lemma_symbolic(s: Seq<char>, pos: usize)
    requires
        pos <= s.len() <= usize::MAX,
    ensures
        spec_symbolic(s, pos) matches Some((_, e)) ==> pos < e <= s.len(),
{
    if pos < s.len() {
        let q = spec_padding(s, (pos + 1) as usize);
        lemma_padding_bounds(s, (pos + 1) as usize);
        lemma_int_u8_bounds(s, q);
        lemma_int_i32_bounds(s, q);
        lemma_int_usize_bounds(s, q);
        lemma_int_usize_bounds(s, (pos + 1) as usize);
        if let Some((v, e)) = spec_int_u8(s, q) {
            lemma_padding_bounds(s, e);
        }
        if let Some((v, e)) = spec_int_i32(s, q) {
            lemma_padding_bounds(s, e);
        }
        if let Some((v, e)) = spec_int_usize(s, q) {
            lemma_padding_bounds(s, e);
        }
    }
}

fn symbolic(s: &Vec<char>, pos: usize) -> (r: Option<(PostfixOp, usize)>)
    requires
        pos <= s@.len() <= usize::MAX,
    ensures
        crate::ast::agrees(r, spec_symbolic(s@, pos)),
        r matches Some((_, e)) ==> pos < e <= s@.len(),
{
    proof {
        lemma_symbolic(s@, pos);
    }
    let n = s.len();
    if pos >= n {
        return None;
    }
    let c = s[pos];
    if c == '*' {
        let q = padding(s, pos + 1);
        let (v, e) = int_u8(s, q)?;
        return Some((PostfixOp::Ratchet(v), padding(s, e)));
    }
    if c == '?' {
        let q = padding(s, pos + 1);
        let (v, e) = int_u8(s, q)?;
        return Some((PostfixOp::Prob(v), padding(s, e)));
    }
    if c == '@' {
        let q = padding(s, pos + 1);
        let (v, e) = int_u8(s, q)?;
        return Some((PostfixOp::VelocityOverride(v), padding(s, e)));
    }
    if c == '%' {
        let q = padding(s, pos + 1);
        let (v, e) = int_u8(s, q)?;
        return Some((PostfixOp::GateOverride(v), padding(s, e)));
    }
    if c == '^' {
        let q = padding(s, pos + 1);
        let (v, e) = int_i32(s, q)?;
        return Some((PostfixOp::Invert(v), padding(s, e)));
    }
    if c == '/' {
        let q = padding(s, pos + 1);
        let (v, e) = int_usize(s, q)?;
        return Some((PostfixOp::Span(v), padding(s, e)));
    }
    if c == '+' || c == '-' {
        let (v, e) = int_usize(s, pos + 1)?;
        if e < n && s[e] != '#' && s[e] != 'b' {
            let t = v as i32;
            let amt = if c == '+' {
                t
            } else if t == i32::MIN {
                t
            } else {
                -t
            };
            return Some((PostfixOp::Transpose(amt), e));
        }
        return None;
    }
    None
}

/// The position of `off(shift,` content, before its nested operations.
pub open spec fn spec_off_head(s: Seq<char>, pos: usize) -> Option<(Decimal, usize)> {
    match spec_call_open(s, pos, w_off()) {
        Some(p1) => match spec_decimal(s, p1) {
            Some((sh, p2)) => match spec_pad_char(s, p2, ',') {
                Some(p3) => Some((sh, p3)),
                None => None,
            },
            None => None,
        },
        None => None,
    }
}

pub proof fn lemma_off_head(s: Seq<char>, pos: usize)
    requires
        pos <= s.len() <= usize::MAX,
    ensures
        spec_off_head(s, pos) matches Some((_, e)) ==> pos < e <= s.len(),
{
    lemma_call_open(s, pos, w_off());
    if let Some(p1) = spec_call_open(s, pos, w_off()) {
        lemma_decimal_bounds(s, p1);
        if let Some((sh, p2)) = spec_decimal(s, p1) {
            lemma_pad_char_bounds(s, p2, ',');
        }
    }
}

fn off_head(s: &Vec<char>, pos: usize) -> (r: Option<(Decimal, usize)>)
    requires
        pos <= s@.len() <= usize::MAX,
    ensures
        r == spec_off_head(s@, pos),
        r matches Some((_, e)) ==> pos < e <= s@.len(),
{
    proof {
        lemma_off_head(s@, pos);
    }
    let w = ['o', 'f', 'f'];
    assert(w@ =~= w_off());
    let p1 = call_open(s, pos, &w)?;
    let (sh, p2) = float_f32(s, p1)?;
    let p3 = pad_char(s, p2, ',')?;
    Some((sh, p3))
}

/// A postfix operation: a method after `.`, or a symbolic operation.
pub open spec fn spec_postfix(s: Seq<char>, pos: usize) -> Option<(SPostfix, usize)>
    decreases s.len() - pos, 1nat
    when pos <= s.len() && s.len() <= usize::MAX
{
    if spec_cond(s, pos) is Some {
        spec_cond(s, pos)
    } else {
        spec_postfix_rest(s, pos)
    }
}

/// The postfix operations other than conditions.
pub open spec fn spec_postfix_rest(s: Seq<char>, pos: usize) -> Option<(SPostfix, usize)>
    decreases s.len() - pos, 0nat
    when pos <= s.len() && s.len() <= usize::MAX
{
    let method = match spec_just(s, pos, '.') {
        Some(m) => {
            if spec_simple_method(s, m) is Some {
                spec_simple_method(s, m)
            } else {
                let off = match spec_off_head(s, m) {
                    Some((sh, p3)) => {
                        proof {
                            lemma_off_head(s, m);
                        }
                        let (ops, p4) = spec_postfix_list(s, p3);
                        match spec_pad_char(s, p4, ')') {
                            Some(p5) => Some((SPostfix::Off(sh, ops), p5)),
                            None => None,
                        }
                    },
                    None => None,
                };
                if off is Some {
                    off
                } else {
                    spec_late_method(s, m)
                }
            }
        },
        None => None,
    };
    if method is Some {
        method
    } else {
        spec_symbolic(s, pos)
    }
}

/// Postfix operations, one after another, as long as they parse.
pub open spec fn spec_postfix_list(s: Seq<char>, pos: usize) -> (Seq<SPostfix>, usize)
    decreases s.len() - pos, 2nat
    when pos <= s.len() && s.len() <= usize::MAX
{
    match spec_postfix(s, pos) {
        Some((op, p1)) => if pos < p1 <= s.len() {
            let (rest, p2) = spec_postfix_list(s, p1);
            (seq![op] + rest, p2)
        } else {
            (Seq::empty(), pos)
        },
        None => (Seq::empty(), pos),
    }
}

pub open spec fn w_only() -> Seq<char> { seq!['o', 'n', 'l', 'y'] }
pub open spec fn w_m_only() -> Seq<char> { seq!['m', '_', 'o', 'n', 'l', 'y'] }
pub open spec fn w_if() -> Seq<char> { seq!['i', 'f'] }
pub open spec fn w_m_if() -> Seq<char> { seq!['m', '_', 'i', 'f'] }

/// The head of a condition, up to its opening bracket: `m_only(`,
/// `m_if(`, `only(` or `if(`.
pub open spec fn spec_cond_head(s: Seq<char>, pos: usize) -> Option<(CondScope, bool, usize)> {
    if spec_call_open(s, pos, w_m_only()) is Some {
        Some((CondScope::MacroFirst, true, spec_call_open(s, pos, w_m_only()).unwrap()))
    } else if spec_call_open(s, pos, w_m_if()) is Some {
        Some((CondScope::Macro, false, spec_call_open(s, pos, w_m_if()).unwrap()))
    } else if spec_call_open(s, pos, w_only()) is Some {
        Some((CondScope::Cycle, true, spec_call_open(s, pos, w_only()).unwrap()))
    } else if spec_call_open(s, pos, w_if()) is Some {
        Some((CondScope::Cycle, false, spec_call_open(s, pos, w_if()).unwrap()))
    } else {
        None
    }
}

/// A condition, after optional padding and an optional dot:
/// `only(interval[, offset])` and the like; the offset defaults to 0.
pub open spec fn spec_cond(s: Seq<char>, pos: usize) -> Option<(SPostfix, usize)> {
    let p0 = spec_padding(s, pos);
    let p1 = match spec_just(s, p0, '.') {
        Some(q) => q,
        None => p0,
    };
    match spec_cond_head(s, p1) {
        Some((scope, gate, p2)) => match spec_int_usize(s, p2) {
            Some((interval, p3)) => {
                let off = match spec_next_arg(s, p3) {
                    Some(p4) => match spec_int_usize(s, p4) {
                        Some((o, p5)) => Some((o, p5)),
                        None => None,
                    },
                    None => Some((0usize, p3)),
                };
                match off {
                    Some((offset, p5)) => match spec_pad_char(s, p5, ')') {
                        Some(p6) => Some((SPostfix::Cond(scope, gate, interval, offset), p6)),
                        None => None,
                    },
                    None => None,
                }
            },
            None => None,
        },
        None => None,
    }
}

fn cond_head(s: &Vec<char>, pos: usize) -> (r: Option<(CondScope, bool, usize)>)
    requires
        pos <= s@.len() <= usize::MAX,
    ensures
        r == spec_cond_head(s@, pos),
        r matches Some((_, _, e)) ==> pos < e <= s@.len(),
{
    let w1 = ['m', '_', 'o', 'n', 'l', 'y'];
    let w2 = ['m', '_', 'i', 'f'];
    let w3 = ['o', 'n', 'l', 'y'];
    let w4 = ['i', 'f'];
    assert(w1@ =~= w_m_only());
    assert(w2@ =~= w_m_if());
    assert(w3@ =~= w_only());
    assert(w4@ =~= w_if());
    if let Some(p) = call_open(s, pos, &w1) {
        return Some((CondScope::MacroFirst, true, p));
    }
    if let Some(p) = call_open(s, pos, &w2) {
        return Some((CondScope::Macro, false, p));
    }
    if let Some(p) = call_open(s, pos, &w3) {
        return Some((CondScope::Cycle, true, p));
    }
    if let Some(p) = call_open(s, pos, &w4) {
        return Some((CondScope::Cycle, false, p));
    }
    None
}

/// Parses a condition.
fn cond_postfix(s: &Vec<char>, pos: usize) -> (r: Option<(PostfixOp, usize)>)
    requires
        pos <= s@.len() <= usize::MAX,
    ensures
        crate::ast::agrees(r, spec_cond(s@, pos)),
        r matches Some((_, e)) ==> pos < e <= s@.len(),
{
    let p0 = padding(s, pos);
    proof {
        lemma_padding_bounds(s@, pos);
    }
    let p1 = match just(s, p0, '.') {
        Some(q) => q,
        None => p0,
    };
    let (scope, gate, p2) = cond_head(s, p1)?;
    let (interval, p3) = int_usize(s, p2)?;
    proof {
        lemma_int_usize_bounds(s@, p2);
    }
    let (offset, p5) = match next_arg(s, p3) {
        Some(p4) => {
            let (o, p5) = int_usize(s, p4)?;
            proof {
                lemma_int_usize_bounds(s@, p4);
            }
            (o, p5)
        },
        None => (0usize, p3),
    };
    let p6 = pad_char(s, p5, ')')?;
    proof {
        lemma_pad_char_bounds(s@, p5, ')');
    }
    Some((PostfixOp::Cond(scope, gate, interval, offset), p6))
}

/// Parses one postfix operation.
#[verifier::rlimit(60)]
pub fn postfix_parser(s: &Vec<char>, pos: usize) -> (r: Option<(PostfixOp, usize)>)
    requires
        pos <= s@.len() <= usize::MAX,
    ensures
        crate::ast::agrees(r, spec_postfix(s@, pos)),
        r matches Some((_, e)) ==> pos < e <= s@.len(),
    decreases s@.len() - pos, 1nat,
{
    if let Some(x) = cond_postfix(s, pos) {
        return Some(x);
    }
    if let Some(m) = just(s, pos, '.') {
        if let Some(x) = simple_method(s, m) {
            return Some(x);
        }
        if let Some((sh, p3)) = off_head(s, m) {
            let (ops, p4) = postfix_list(s, p3);
            if let Some(p5) = pad_char(s, p4, ')') {
                return Some((PostfixOp::Off(sh, ops), p5));
            }
        }
        if let Some(x) = late_method(s, m) {
            return Some(x);
        }
    }
    symbolic(s, pos)
}

/// Parses postfix operations one after another.
pub fn postfix_list(s: &Vec<char>, pos: usize) -> (r: (Vec<PostfixOp>, usize))
    requires
        pos <= s@.len() <= usize::MAX,
    ensures
        postfixes_view(r.0@) == spec_postfix_list(s@, pos).0,
        r.1 == spec_postfix_list(s@, pos).1,
        pos <= r.1 <= s@.len(),
    decreases s@.len() - pos, 2nat,
{
    let mut ops: Vec<PostfixOp> = Vec::new();
    let mut p = pos;
    let ghost target = spec_postfix_list(s@, pos);
    assert(postfixes_view(ops@) =~= Seq::<SPostfix>::empty());
    loop
        invariant
            pos <= p <= s@.len() <= usize::MAX,
            target == spec_postfix_list(s@, pos),
            target.0 == postfixes_view(ops@) + spec_postfix_list(s@, p).0,
            target.1 == spec_postfix_list(s@, p).1,
        decreases s@.len() - p,
    {
        match postfix_parser(s, p) {
            Some((op, p1)) => {
                proof {
                    let rest = spec_postfix_list(s@, p1).0;
                    assert(postfixes_view(ops@.push(op)) =~= postfixes_view(ops@).push(op@));
                    assert(postfixes_view(ops@) + (seq![op@] + rest) =~= postfixes_view(ops@).push(op@) + rest);
                }
                ops.push(op);
                p = p1;
            },
            None => {
                proof {
                    assert(spec_postfix_list(s@, p).0 =~= Seq::<SPostfix>::empty());
                    assert(target.0 =~= postfixes_view(ops@));
                }
                return (ops, p);
            },
        }
    }
}

} // verus!

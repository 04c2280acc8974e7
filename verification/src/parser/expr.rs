//! The recursive part of the grammar: expressions, groups and macro calls.
use vstd::prelude::*;
use crate::ast::{
    layers_view, lemma_layers_view_push, lemma_nodes_view_empty, lemma_nodes_view_push, node_view,
    lemma_segments_view_push, lemma_weighted_view_push, nodes_view, segments_view, weighted_view,
    Node, SNode,
};
use super::base::{cc_parser, chord_or_note, spec_cc_parser, spec_chord_or_note};
use super::directives::{lemma_scale_def, scale_def, spec_scale_def};
use super::modifiers::{fold_postfix, postfix_list, spec_fold_postfix, spec_postfix_list, postfixes_view};
use super::primitives::{
    ident, int_u8, int_usize, just, kw, lemma_ident, lemma_int_u8_bounds, lemma_int_usize_bounds,
    lemma_kw_bounds, lemma_pad_char_bounds, lemma_padding_bounds, pad_char, padding, spec_ident,
    spec_int_u8, spec_int_usize, spec_just, spec_kw, spec_pad_char, spec_padding, substring, is_digit,
};

verus! {

/// One expression stands for itself; several (or none) form a sequence.
pub open spec fn single_or_seq(items: Seq<SNode>) -> SNode {
    if items.len() == 1 {
        items[0]
    } else {
        SNode::Sequence(items)
    }
}

pub fn single_or_seq_exec(v: Vec<Node>) -> (r: Node)
    ensures
        r@ == single_or_seq(nodes_view(v@)),
{
    if v.len() == 1 {
        let mut v = v;
        let ghost vv = v@;
        let n = v.remove(0);
        assert(nodes_view(vv)[0] == n@);
        n
    } else {
        Node::Sequence(v)
    }
}

/// `b` lies past `a`, within the text.
pub open spec fn adv(s: Seq<char>, a: usize, b: usize) -> bool {
    a < b && b <= s.len()
}

/// Expressions, each with padding round it, as long as they parse.
pub open spec fn spec_expr_list(s: Seq<char>, pos: usize) -> (Seq<SNode>, usize)
    decreases s.len() - pos, 5nat
    when pos <= s.len() && s.len() <= usize::MAX
{
    let p0 = spec_padding(s, pos);
    proof {
        lemma_padding_bounds(s, pos);
    }
    match spec_expr(s, p0) {
        Some((n, p1)) => if adv(s, p0, p1) {
            proof {
                lemma_padding_bounds(s, p1);
            }
            let (rest, p2) = spec_expr_list(s, spec_padding(s, p1));
            (seq![n] + rest, p2)
        } else {
            (Seq::empty(), pos)
        },
        None => (Seq::empty(), pos),
    }
}

/// An atom followed by its postfix operations, which attach to it in order.
pub open spec fn spec_expr(s: Seq<char>, pos: usize) -> Option<(SNode, usize)>
    decreases s.len() - pos, 4nat
    when pos <= s.len() && s.len() <= usize::MAX
{
    match spec_atom(s, pos) {
        Some((a, p1)) => if adv(s, pos, p1) {
            let (ops, p2) = spec_postfix_list(s, p1);
            Some((spec_fold_postfix(a, ops), p2))
        } else {
            None
        },
        None => None,
    }
}

/// The alternatives of an atom, in the order in which they are tried.
pub open spec fn spec_atom(s: Seq<char>, pos: usize) -> Option<(SNode, usize)>
    decreases s.len() - pos, 3nat
    when pos <= s.len() && s.len() <= usize::MAX
{
    if spec_just(s, pos, '.') is Some {
        Some((SNode::Rest, (pos + 1) as usize))
    } else if spec_just(s, pos, '_') is Some {
        Some((SNode::Hold, (pos + 1) as usize))
    } else if spec_with_scale(s, pos) is Some {
        spec_with_scale(s, pos)
    } else if spec_implicit_seq(s, pos) is Some {
        spec_implicit_seq(s, pos)
    } else if spec_kw_list(s, pos, w_seq()) is Some {
        let (items, e) = spec_kw_list(s, pos, w_seq()).unwrap();
        Some((single_or_seq(items), e))
    } else if spec_kw_list(s, pos, w_alt()) is Some {
        let (items, e) = spec_kw_list(s, pos, w_alt()).unwrap();
        Some((SNode::Alternator(items), e))
    } else if spec_rnd_group(s, pos) is Some {
        spec_rnd_group(s, pos)
    } else if spec_kw_layers(s, pos, w_par()) is Some {
        let (ls, e) = spec_kw_layers(s, pos, w_par()).unwrap();
        Some((SNode::Parallel(ls), e))
    } else if spec_kw_layers(s, pos, w_poly()) is Some {
        let (ls, e) = spec_kw_layers(s, pos, w_poly()).unwrap();
        Some((SNode::Polymeter(ls), e))
    } else if spec_kw_list(s, pos, w_shuf()) is Some {
        let (items, e) = spec_kw_list(s, pos, w_shuf()).unwrap();
        Some((SNode::ShuffledSequence(items), e))
    } else if spec_struct_group(s, pos) is Some {
        spec_struct_group(s, pos)
    } else if spec_chain_loop(s, pos) is Some {
        spec_chain_loop(s, pos)
    } else if spec_arrange(s, pos) is Some {
        spec_arrange(s, pos)
    } else if spec_cc_parser(s, pos) is Some {
        spec_cc_parser(s, pos)
    } else if spec_chord_or_note(s, pos) is Some {
        spec_chord_or_note(s, pos)
    } else {
        spec_alias_ref(s, pos)
    }
}

pub open spec fn w_scale_kw() -> Seq<char> { seq!['s', 'c', 'a', 'l', 'e'] }
pub open spec fn w_seq() -> Seq<char> { seq!['s', 'e', 'q'] }
pub open spec fn w_alt() -> Seq<char> { seq!['a', 'l', 't'] }
pub open spec fn w_rnd() -> Seq<char> { seq!['r', 'n', 'd'] }
pub open spec fn w_par() -> Seq<char> { seq!['p', 'a', 'r'] }
pub open spec fn w_poly() -> Seq<char> { seq!['p', 'o', 'l', 'y'] }
pub open spec fn w_shuf() -> Seq<char> { seq!['s', 'h', 'u', 'f'] }
pub open spec fn w_struct() -> Seq<char> { seq!['s', 't', 'r', 'u', 'c', 't'] }
pub open spec fn w_chain() -> Seq<char> { seq!['c', 'h', 'a', 'i', 'n'] }
pub open spec fn w_arrange() -> Seq<char> { seq!['a', 'r', 'r', 'a', 'n', 'g', 'e'] }

/// `scale(root name) expr`: the expression under another scale.
pub open spec fn spec_with_scale(s: Seq<char>, pos: usize) -> Option<(SNode, usize)>
    decreases s.len() - pos, 2nat
    when pos <= s.len() && s.len() <= usize::MAX
{
    match spec_kw(s, pos, w_scale_kw()) {
        Some(p1) => match spec_pad_char(s, p1, '(') {
            Some(p2) => match spec_scale_def(s, p2) {
                Some((sc, p3)) => match spec_pad_char(s, p3, ')') {
                    Some(p4) => {
                        proof {
                            lemma_kw_bounds(s, pos, w_scale_kw());
                            lemma_pad_char_bounds(s, p1, '(');
                            lemma_scale_def(s, p2);
                            lemma_pad_char_bounds(s, p3, ')');
                        }
                        match spec_expr(s, p4) {
                            Some((child, p5)) => Some((SNode::WithScale(sc, Box::new(child)), p5)),
                            None => None,
                        }
                    },
                    None => None,
                },
                None => None,
            },
            None => None,
        },
        None => None,
    }
}

/// `[ exprs ]`.
pub open spec fn spec_implicit_seq(s: Seq<char>, pos: usize) -> Option<(SNode, usize)>
    decreases s.len() - pos, 2nat
    when pos <= s.len() && s.len() <= usize::MAX
{
    match spec_pad_char(s, pos, '[') {
        Some(p1) => {
            proof {
                lemma_pad_char_bounds(s, pos, '[');
            }
            let (items, p2) = spec_expr_list(s, p1);
            if p2 <= s.len() {
                match spec_pad_char(s, p2, ']') {
                    Some(p3) => Some((single_or_seq(items), p3)),
                    None => None,
                }
            } else {
                None
            }
        },
        None => None,
    }
}

/// `word( exprs )`.
pub open spec fn spec_kw_list(s: Seq<char>, pos: usize, w: Seq<char>) -> Option<(Seq<SNode>, usize)>
    decreases s.len() - pos, 2nat
    when pos <= s.len() && s.len() <= usize::MAX
{
    match spec_kw(s, pos, w) {
        Some(p1) => match spec_pad_char(s, p1, '(') {
            Some(p2) => {
                proof {
                    lemma_kw_bounds(s, pos, w);
                    lemma_pad_char_bounds(s, p1, '(');
                }
                let (items, p3) = spec_expr_list(s, p2);
                if p3 <= s.len() {
                    match spec_pad_char(s, p3, ')') {
                        Some(p4) => Some((items, p4)),
                        None => None,
                    }
                } else {
                    None
                }
            },
            None => None,
        },
        None => None,
    }
}

/// `rnd( [w:] exprs, ... )`: weighted choices (weight 1 by default).
pub open spec fn spec_rnd_group(s: Seq<char>, pos: usize) -> Option<(SNode, usize)>
    decreases s.len() - pos, 2nat
    when pos <= s.len() && s.len() <= usize::MAX
{
    match spec_kw(s, pos, w_rnd()) {
        Some(p1) => match spec_pad_char(s, p1, '(') {
            Some(p2) => {
                proof {
                    lemma_kw_bounds(s, pos, w_rnd());
                    lemma_pad_char_bounds(s, p1, '(');
                }
                let (bs, p3) = spec_rnd_branches(s, p2);
                if p3 <= s.len() {
                    match spec_pad_char(s, p3, ')') {
                        Some(p4) => Some((SNode::RandomChoice(bs), p4)),
                        None => None,
                    }
                } else {
                    None
                }
            },
            None => None,
        },
        None => None,
    }
}

/// An optional `weight:` prefix: the weight and the position after it.
pub open spec fn spec_rnd_weight(s: Seq<char>, pos: usize) -> (Option<u8>, usize) {
    match spec_int_u8(s, spec_padding(s, pos)) {
        Some((w, e)) => match spec_pad_char(s, spec_padding(s, e), ':') {
            Some(p) => (Some(w), p),
            None => (None, pos),
        },
        None => (None, pos),
    }
}

pub proof fn lemma_rnd_weight(s: Seq<char>, pos: usize)
    requires
        pos <= s.len() <= usize::MAX,
    ensures
        pos <= spec_rnd_weight(s, pos).1 <= s.len(),
{
    lemma_padding_bounds(s, pos);
    lemma_int_u8_bounds(s, spec_padding(s, pos));
    if let Some((w, e)) = spec_int_u8(s, spec_padding(s, pos)) {
        lemma_padding_bounds(s, e);
        lemma_pad_char_bounds(s, spec_padding(s, e), ':');
    }
}

/// One branch of `rnd`: an optional weight and expressions.
pub open spec fn spec_rnd_branch(s: Seq<char>, pos: usize) -> ((u32, SNode), usize)
    decreases s.len() - pos, 6nat
    when pos <= s.len() && s.len() <= usize::MAX
{
    let (w, p1) = spec_rnd_weight(s, pos);
    proof {
        lemma_rnd_weight(s, pos);
    }
    let (items, p2) = spec_expr_list(s, p1);
    let wt: u32 = match w {
        Some(x) => x as u32,
        None => 1,
    };
    ((wt, single_or_seq(items)), p2)
}

/// The branches after the first: `, branch` repeatedly.
pub open spec fn spec_rnd_rest(s: Seq<char>, pos: usize) -> (Seq<(u32, SNode)>, usize)
    decreases s.len() - pos, 6nat
    when pos <= s.len() && s.len() <= usize::MAX
{
    match spec_pad_char(s, pos, ',') {
        Some(p1) => {
            proof {
                lemma_pad_char_bounds(s, pos, ',');
            }
            let (b, p2) = spec_rnd_branch(s, p1);
            if adv(s, pos, p2) {
                let (rest, p3) = spec_rnd_rest(s, p2);
                (seq![b] + rest, p3)
            } else {
                (Seq::empty(), pos)
            }
        },
        None => (Seq::empty(), pos),
    }
}

/// All branches of `rnd`, separated by commas.
pub open spec fn spec_rnd_branches(s: Seq<char>, pos: usize) -> (Seq<(u32, SNode)>, usize)
    decreases s.len() - pos, 7nat
    when pos <= s.len() && s.len() <= usize::MAX
{
    let (b, p1) = spec_rnd_branch(s, pos);
    if pos <= p1 <= s.len() {
        let (rest, p2) = spec_rnd_rest(s, p1);
        (seq![b] + rest, p2)
    } else {
        (seq![b], p1)
    }
}

/// `word( exprs, exprs, ... )`: layers.
pub open spec fn spec_kw_layers(s: Seq<char>, pos: usize, w: Seq<char>) -> Option<(Seq<Seq<SNode>>, usize)>
    decreases s.len() - pos, 2nat
    when pos <= s.len() && s.len() <= usize::MAX
{
    match spec_kw(s, pos, w) {
        Some(p1) => match spec_pad_char(s, p1, '(') {
            Some(p2) => {
                proof {
                    lemma_kw_bounds(s, pos, w);
                    lemma_pad_char_bounds(s, p1, '(');
                }
                let (ls, p3) = spec_layers(s, p2);
                if p3 <= s.len() {
                    match spec_pad_char(s, p3, ')') {
                        Some(p4) => Some((ls, p4)),
                        None => None,
                    }
                } else {
                    None
                }
            },
            None => None,
        },
        None => None,
    }
}

/// Layers of expressions separated by commas (at least one, possibly empty, layer).
pub open spec fn spec_layers(s: Seq<char>, pos: usize) -> (Seq<Seq<SNode>>, usize)
    decreases s.len() - pos, 7nat
    when pos <= s.len() && s.len() <= usize::MAX
{
    let (l0, p1) = spec_expr_list(s, pos);
    if pos <= p1 <= s.len() {
        let (rest, p2) = spec_layers_rest(s, p1);
        (seq![l0] + rest, p2)
    } else {
        (seq![l0], p1)
    }
}

pub open spec fn spec_layers_rest(s: Seq<char>, pos: usize) -> (Seq<Seq<SNode>>, usize)
    decreases s.len() - pos, 6nat
    when pos <= s.len() && s.len() <= usize::MAX
{
    match spec_pad_char(s, pos, ',') {
        Some(p1) => {
            proof {
                lemma_pad_char_bounds(s, pos, ',');
            }
            let (l, p2) = spec_expr_list(s, p1);
            if adv(s, pos, p2) {
                let (rest, p3) = spec_layers_rest(s, p2);
                (seq![l] + rest, p3)
            } else {
                (Seq::empty(), pos)
            }
        },
        None => (Seq::empty(), pos),
    }
}

/// `struct(mask, content)`.
pub open spec fn spec_struct_group(s: Seq<char>, pos: usize) -> Option<(SNode, usize)>
    decreases s.len() - pos, 2nat
    when pos <= s.len() && s.len() <= usize::MAX
{
    match spec_kw(s, pos, w_struct()) {
        Some(p1) => match spec_pad_char(s, p1, '(') {
            Some(p2) => {
                proof {
                    lemma_kw_bounds(s, pos, w_struct());
                    lemma_pad_char_bounds(s, p1, '(');
                }
                match spec_expr(s, p2) {
                    Some((a, p3)) => if adv(s, p2, p3) {
                        match spec_pad_char(s, p3, ',') {
                            Some(p4) => {
                                proof {
                                    lemma_pad_char_bounds(s, p3, ',');
                                }
                                match spec_expr(s, p4) {
                                    Some((b, p5)) => if p5 <= s.len() {
                                        match spec_pad_char(s, p5, ')') {
                                            Some(p6) => Some((SNode::Struct(Box::new(a), Box::new(b)), p6)),
                                            None => None,
                                        }
                                    } else {
                                        None
                                    },
                                    None => None,
                                }
                            },
                            None => None,
                        }
                    } else {
                        None
                    },
                    None => None,
                }
            },
            None => None,
        },
        None => None,
    }
}

/// The head `(start, end):` of an arrangement segment.
pub open spec fn spec_arr_head(s: Seq<char>, pos: usize) -> Option<(usize, usize, usize)> {
    match spec_pad_char(s, pos, '(') {
        Some(p1) => match spec_int_usize(s, p1) {
            Some((a, p2)) => match spec_pad_char(s, p2, ',') {
                Some(p3) => match spec_int_usize(s, p3) {
                    Some((b, p4)) => match spec_pad_char(s, p4, ')') {
                        Some(p5) => match spec_pad_char(s, p5, ':') {
                            Some(p6) => Some((a, b, p6)),
                            None => None,
                        },
                        None => None,
                    },
                    None => None,
                },
                None => None,
            },
            None => None,
        },
        None => None,
    }
}

pub proof fn lemma_arr_head(s: Seq<char>, pos: usize)
    requires
        pos <= s.len() <= usize::MAX,
    ensures
        spec_arr_head(s, pos) matches Some((_, _, e)) ==> pos < e <= s.len(),
{
    lemma_pad_char_bounds(s, pos, '(');
    if let Some(p1) = spec_pad_char(s, pos, '(') {
        lemma_int_usize_bounds(s, p1);
        if let Some((a, p2)) = spec_int_usize(s, p1) {
            lemma_pad_char_bounds(s, p2, ',');
            if let Some(p3) = spec_pad_char(s, p2, ',') {
                lemma_int_usize_bounds(s, p3);
                if let Some((b, p4)) = spec_int_usize(s, p3) {
                    lemma_pad_char_bounds(s, p4, ')');
                    if let Some(p5) = spec_pad_char(s, p4, ')') {
                        lemma_pad_char_bounds(s, p5, ':');
                    }
                }
            }
        }
    }
}

/// `(start, end): exprs` with at least one expression.
pub open spec fn spec_arr_segment(s: Seq<char>, pos: usize) -> Option<((usize, usize, SNode), usize)>
    decreases s.len() - pos, 6nat
    when pos <= s.len() && s.len() <= usize::MAX
{
    match spec_arr_head(s, pos) {
        Some((a, b, p1)) => {
            proof {
                lemma_arr_head(s, pos);
            }
            let (items, p2) = spec_expr_list(s, p1);
            if items.len() == 0 {
                None
            } else {
                Some(((a, b, single_or_seq(items)), p2))
            }
        },
        None => None,
    }
}

/// After a segment: padding and an optional comma.
pub open spec fn spec_after_item(s: Seq<char>, pos: usize) -> usize {
    let q = spec_padding(s, pos);
    match spec_pad_char(s, q, ',') {
        Some(p) => p,
        None => q,
    }
}

pub proof fn lemma_after_item(s: Seq<char>, pos: usize)
    requires
        pos <= s.len() <= usize::MAX,
    ensures
        pos <= spec_after_item(s, pos) <= s.len(),
{
    lemma_padding_bounds(s, pos);
    lemma_pad_char_bounds(s, spec_padding(s, pos), ',');
}

/// Arrangement segments, each with padding before it and an optional comma after.
pub open spec fn spec_arr_segments(s: Seq<char>, pos: usize) -> (Seq<(usize, usize, SNode)>, usize)
    decreases s.len() - pos, 7nat
    when pos <= s.len() && s.len() <= usize::MAX
{
    let p0 = spec_padding(s, pos);
    proof {
        lemma_padding_bounds(s, pos);
    }
    match spec_arr_segment(s, p0) {
        Some((seg, p1)) => if adv(s, p0, p1) {
            proof {
                lemma_after_item(s, p1);
            }
            let (rest, p2) = spec_arr_segments(s, spec_after_item(s, p1));
            (seq![seg] + rest, p2)
        } else {
            (Seq::empty(), pos)
        },
        None => (Seq::empty(), pos),
    }
}

/// `arrange [ (start, end): exprs, ... ]`.
pub open spec fn spec_arrange(s: Seq<char>, pos: usize) -> Option<(SNode, usize)>
    decreases s.len() - pos, 2nat
    when pos <= s.len() && s.len() <= usize::MAX
{
    match spec_kw(s, pos, w_arrange()) {
        Some(p1) => match spec_pad_char(s, p1, '[') {
            Some(p2) => {
                proof {
                    lemma_kw_bounds(s, pos, w_arrange());
                    lemma_pad_char_bounds(s, p1, '[');
                }
                let (segs, p3) = spec_arr_segments(s, p2);
                if p3 <= s.len() {
                    match spec_pad_char(s, p3, ']') {
                        Some(p4) => Some((SNode::Arrange(segs), p4)),
                        None => None,
                    }
                } else {
                    None
                }
            },
            None => None,
        },
        None => None,
    }
}

/// `n: exprs` with at least one expression.
pub open spec fn spec_chain_seg(s: Seq<char>, pos: usize) -> Option<((usize, SNode), usize)>
    decreases s.len() - pos, 6nat
    when pos <= s.len() && s.len() <= usize::MAX
{
    match spec_int_usize(s, pos) {
        Some((d, p1)) => match spec_pad_char(s, p1, ':') {
            Some(p2) => {
                proof {
                    lemma_int_usize_bounds(s, pos);
                    lemma_pad_char_bounds(s, p1, ':');
                }
                let (items, p3) = spec_expr_list(s, p2);
                if items.len() == 0 {
                    None
                } else {
                    Some(((d, single_or_seq(items)), p3))
                }
            },
            None => None,
        },
        None => None,
    }
}

pub open spec fn spec_chain_segments(s: Seq<char>, pos: usize) -> (Seq<(usize, SNode)>, usize)
    decreases s.len() - pos, 7nat
    when pos <= s.len() && s.len() <= usize::MAX
{
    let p0 = spec_padding(s, pos);
    proof {
        lemma_padding_bounds(s, pos);
    }
    match spec_chain_seg(s, p0) {
        Some((seg, p1)) => if adv(s, p0, p1) {
            proof {
                lemma_after_item(s, p1);
            }
            let (rest, p2) = spec_chain_segments(s, spec_after_item(s, p1));
            (seq![seg] + rest, p2)
        } else {
            (Seq::empty(), pos)
        },
        None => (Seq::empty(), pos),
    }
}

/// Chained segments laid end to end from `start`: each lasts its number of
/// cycles. `None` when an end would not fit in a `usize`.
pub open spec fn chain_arrange(segs: Seq<(usize, SNode)>, start: nat) -> Option<Seq<(usize, usize, SNode)>>
    decreases segs.len(),
{
    if segs.len() == 0 {
        Some(Seq::empty())
    } else {
        let end: nat = start + segs[0].0 as nat;
        if end > usize::MAX {
            None
        } else {
            match chain_arrange(segs.drop_first(), end) {
                Some(rest) => Some(seq![(start as usize, end as usize, segs[0].1)] + rest),
                None => None,
            }
        }
    }
}

/// `chain [ n: exprs, ... ]`: an arrangement of consecutive segments.
pub open spec fn spec_chain_loop(s: Seq<char>, pos: usize) -> Option<(SNode, usize)>
    decreases s.len() - pos, 2nat
    when pos <= s.len() && s.len() <= usize::MAX
{
    match spec_kw(s, pos, w_chain()) {
        Some(p1) => match spec_pad_char(s, p1, '[') {
            Some(p2) => {
                proof {
                    lemma_kw_bounds(s, pos, w_chain());
                    lemma_pad_char_bounds(s, p1, '[');
                }
                let (segs, p3) = spec_chain_segments(s, p2);
                if p3 <= s.len() {
                    match spec_pad_char(s, p3, ']') {
                        Some(p4) => match chain_arrange(segs, 0) {
                            Some(arr) => Some((SNode::Arrange(arr), p4)),
                            None => None,
                        },
                        None => None,
                    }
                } else {
                    None
                }
            },
            None => None,
        },
        None => None,
    }
}

/// Names that cannot be macros: `let`, and track headers (`T` and digits).
pub open spec fn is_reserved_name(name: Seq<char>) -> bool {
    name == seq!['l', 'e', 't'] || (name.len() > 1 && name[0] == 'T' && forall|i: int|
        1 <= i < name.len() ==> is_digit(#[trigger] name[i]))
}

/// Macro arguments: padded expressions separated by commas (possibly none).
pub open spec fn spec_args_list(s: Seq<char>, pos: usize) -> (Seq<SNode>, usize)
    decreases s.len() - pos, 6nat
    when pos <= s.len() && s.len() <= usize::MAX
{
    let p0 = spec_padding(s, pos);
    proof {
        lemma_padding_bounds(s, pos);
    }
    match spec_expr(s, p0) {
        Some((n, p1)) => if adv(s, p0, p1) {
            proof {
                lemma_padding_bounds(s, p1);
            }
            let (rest, p2) = spec_args_rest(s, spec_padding(s, p1));
            (seq![n] + rest, p2)
        } else {
            (Seq::empty(), pos)
        },
        None => (Seq::empty(), pos),
    }
}

pub open spec fn spec_args_rest(s: Seq<char>, pos: usize) -> (Seq<SNode>, usize)
    decreases s.len() - pos, 6nat
    when pos <= s.len() && s.len() <= usize::MAX
{
    match spec_pad_char(s, pos, ',') {
        Some(p1) => {
            proof {
                lemma_pad_char_bounds(s, pos, ',');
                lemma_padding_bounds(s, p1);
            }
            let q = spec_padding(s, p1);
            match spec_expr(s, q) {
                Some((n, p2)) => if adv(s, q, p2) {
                    proof {
                        lemma_padding_bounds(s, p2);
                    }
                    let (rest, p3) = spec_args_rest(s, spec_padding(s, p2));
                    (seq![n] + rest, p3)
                } else {
                    (Seq::empty(), pos)
                },
                None => (Seq::empty(), pos),
            }
        },
        None => (Seq::empty(), pos),
    }
}

/// A macro reference: a name that is not reserved, with optional `(args)`.
pub open spec fn spec_alias_ref(s: Seq<char>, pos: usize) -> Option<(SNode, usize)>
    decreases s.len() - pos, 2nat
    when pos <= s.len() && s.len() <= usize::MAX
{
    match spec_ident(s, pos) {
        Some(e) => {
            let name = s.subrange(pos as int, e as int);
            if is_reserved_name(name) {
                None
            } else {
                proof {
                    lemma_ident(s, pos);
                }
                let args = match spec_pad_char(s, e, '(') {
                    Some(p1) => {
                        proof {
                            lemma_pad_char_bounds(s, e, '(');
                        }
                        let (a, p2) = spec_args_list(s, p1);
                        if p2 <= s.len() {
                            match spec_pad_char(s, p2, ')') {
                                Some(p3) => Some((a, p3)),
                                None => None,
                            }
                        } else {
                            None
                        }
                    },
                    None => None,
                };
                match args {
                    Some((a, p3)) => Some((SNode::Ref(name, a), p3)),
                    None => Some((SNode::Ref(name, Seq::empty()), e)),
                }
            }
        },
        None => None,
    }
}


/// Reads expressions, each with padding round it, as long as they parse.
pub fn expr_list(s: &Vec<char>, pos: usize) -> (r: (Vec<Node>, usize))
    requires
        pos <= s@.len() <= usize::MAX,
    ensures
        nodes_view(r.0@) == spec_expr_list(s@, pos).0,
        r.1 == spec_expr_list(s@, pos).1,
        pos <= r.1 <= s@.len(),
    decreases s@.len() - pos, 5nat,
{
    let mut items: Vec<Node> = Vec::new();
    let mut p = pos;
    let ghost target = spec_expr_list(s@, pos);
    proof {
        lemma_nodes_view_empty();
        assert(target.0 =~= nodes_view(items@) + spec_expr_list(s@, p).0);
    }
    loop
        invariant
            pos <= p <= s@.len() <= usize::MAX,
            target == spec_expr_list(s@, pos),
            target.0 == nodes_view(items@) + spec_expr_list(s@, p).0,
            target.1 == spec_expr_list(s@, p).1,
        decreases s@.len() - p,
    {
        let p0 = padding(s, p);
        let next = expr(s, p0);
        match next {
            Some((n, p1)) => {
                if p0 < p1 {
                    let p2 = padding(s, p1);
                    proof {
                        let rest = spec_expr_list(s@, p2).0;
                        lemma_nodes_view_push(items@, n);
                        assert(nodes_view(items@) + (seq![n@] + rest) =~= nodes_view(items@).push(n@)
                            + rest);
                    }
                    items.push(n);
                    p = p2;
                } else {
                    proof {
                        assert(spec_expr_list(s@, p).0 =~= Seq::<SNode>::empty());
                        assert(target.0 =~= nodes_view(items@));
                    }
                    return (items, p);
                }
            },
            None => {
                proof {
                    assert(spec_expr_list(s@, p).0 =~= Seq::<SNode>::empty());
                    assert(target.0 =~= nodes_view(items@));
                }
                return (items, p);
            },
        }
    }
}

/// Reads one expression: an atom and the postfix operations that follow it.
pub fn expr(s: &Vec<char>, pos: usize) -> (r: Option<(Node, usize)>)
    requires
        pos <= s@.len() <= usize::MAX,
    ensures
        crate::ast::agrees(r, spec_expr(s@, pos)),
        r matches Some((_, e)) ==> pos < e <= s@.len(),
    decreases s@.len() - pos, 4nat,
{
    match atom(s, pos) {
        Some((a, p1)) => {
            if pos < p1 {
                let (ops, p2) = postfix_list(s, p1);
                Some((fold_postfix(a, ops), p2))
            } else {
                None
            }
        },
        None => None,
    }
}

/// Tries the kinds of atom in turn.
#[verifier::rlimit(40)]
fn atom(s: &Vec<char>, pos: usize) -> (r: Option<(Node, usize)>)
    requires
        pos <= s@.len() <= usize::MAX,
    ensures
        crate::ast::agrees(r, spec_atom(s@, pos)),
        r matches Some((_, e)) ==> e <= s@.len(),
    decreases s@.len() - pos, 3nat,
{
    if let Some(p) = just(s, pos, '.') {
        return Some((Node::Rest, p));
    }
    if let Some(p) = just(s, pos, '_') {
        return Some((Node::Hold, p));
    }
    if let Some(x) = with_scale(s, pos) {
        return Some(x);
    }
    if let Some(x) = implicit_seq(s, pos) {
        return Some(x);
    }
    if let Some(x) = seq_group(s, pos) {
        return Some(x);
    }
    if let Some(x) = alt_group(s, pos) {
        return Some(x);
    }
    if let Some(x) = rnd_group(s, pos) {
        return Some(x);
    }
    if let Some(x) = par_group(s, pos) {
        return Some(x);
    }
    if let Some(x) = poly_group(s, pos) {
        return Some(x);
    }
    if let Some(x) = shuf_group(s, pos) {
        return Some(x);
    }
    if let Some(x) = struct_group(s, pos) {
        return Some(x);
    }
    if let Some(x) = chain_loop(s, pos) {
        return Some(x);
    }
    if let Some(x) = arrange(s, pos) {
        return Some(x);
    }
    if let Some(x) = cc_parser(s, pos) {
        return Some(x);
    }
    if let Some(x) = chord_or_note(s, pos) {
        return Some(x);
    }
    alias_ref(s, pos)
}

/// Reads `scale(root name)` and the expression it applies to.
pub fn with_scale(s: &Vec<char>, pos: usize) -> (r: Option<(Node, usize)>)
    requires
        pos <= s@.len() <= usize::MAX,
    ensures
        crate::ast::agrees(r, spec_with_scale(s@, pos)),
        r matches Some((_, e)) ==> pos < e <= s@.len(),
    decreases s@.len() - pos, 2nat,
{
    let w = ['s', 'c', 'a', 'l', 'e'];
    assert(w@ =~= w_scale_kw());
    let p1 = kw(s, pos, &w)?;
    let p2 = pad_char(s, p1, '(')?;
    let (sc, p3) = scale_def(s, p2)?;
    let p4 = pad_char(s, p3, ')')?;
    let (child, p5) = expr(s, p4)?;
    Some((Node::WithScale(sc, Box::new(child)), p5))
}

/// Reads `[ exprs ]`.
pub fn implicit_seq(s: &Vec<char>, pos: usize) -> (r: Option<(Node, usize)>)
    requires
        pos <= s@.len() <= usize::MAX,
    ensures
        crate::ast::agrees(r, spec_implicit_seq(s@, pos)),
        r matches Some((_, e)) ==> pos < e <= s@.len(),
    decreases s@.len() - pos, 2nat,
{
    let p1 = pad_char(s, pos, '[')?;
    let (items, p2) = expr_list(s, p1);
    let p3 = pad_char(s, p2, ']')?;
    Some((single_or_seq_exec(items), p3))
}

/// What `seq( exprs )` reads: one expression stands for itself.
pub open spec fn spec_seq_group(s: Seq<char>, pos: usize) -> Option<(SNode, usize)> {
    match spec_kw_list(s, pos, w_seq()) {
        Some((items, e)) => Some((single_or_seq(items), e)),
        None => None,
    }
}

/// What `alt( exprs )` reads: an alternator.
pub open spec fn spec_alt_group(s: Seq<char>, pos: usize) -> Option<(SNode, usize)> {
    match spec_kw_list(s, pos, w_alt()) {
        Some((items, e)) => Some((SNode::Alternator(items), e)),
        None => None,
    }
}

/// What `shuf( exprs )` reads: a shuffled sequence.
pub open spec fn spec_shuf_group(s: Seq<char>, pos: usize) -> Option<(SNode, usize)> {
    match spec_kw_list(s, pos, w_shuf()) {
        Some((items, e)) => Some((SNode::ShuffledSequence(items), e)),
        None => None,
    }
}

/// What `par( exprs, exprs, ... )` reads: parallel layers.
pub open spec fn spec_par_group(s: Seq<char>, pos: usize) -> Option<(SNode, usize)> {
    match spec_kw_layers(s, pos, w_par()) {
        Some((ls, e)) => Some((SNode::Parallel(ls), e)),
        None => None,
    }
}

/// What `poly( exprs, exprs, ... )` reads: polymetric layers.
pub open spec fn spec_poly_group(s: Seq<char>, pos: usize) -> Option<(SNode, usize)> {
    match spec_kw_layers(s, pos, w_poly()) {
        Some((ls, e)) => Some((SNode::Polymeter(ls), e)),
        None => None,
    }
}

/// Reads `seq( exprs )`.
pub fn seq_group(s: &Vec<char>, pos: usize) -> (r: Option<(Node, usize)>)
    requires
        pos <= s@.len() <= usize::MAX,
    ensures
        crate::ast::agrees(r, spec_seq_group(s@, pos)),
        r matches Some((_, e)) ==> pos < e <= s@.len(),
    decreases s@.len() - pos, 2nat,
{
    let w = ['s', 'e', 'q'];
    assert(w@ =~= w_seq());
    let (items, e) = kw_list(s, pos, &w)?;
    Some((single_or_seq_exec(items), e))
}

/// Reads `alt( exprs )`.
pub fn alt_group(s: &Vec<char>, pos: usize) -> (r: Option<(Node, usize)>)
    requires
        pos <= s@.len() <= usize::MAX,
    ensures
        crate::ast::agrees(r, spec_alt_group(s@, pos)),
        r matches Some((_, e)) ==> pos < e <= s@.len(),
    decreases s@.len() - pos, 2nat,
{
    let w = ['a', 'l', 't'];
    assert(w@ =~= w_alt());
    let (items, e) = kw_list(s, pos, &w)?;
    Some((Node::Alternator(items), e))
}

/// Reads `shuf( exprs )`.
pub fn shuf_group(s: &Vec<char>, pos: usize) -> (r: Option<(Node, usize)>)
    requires
        pos <= s@.len() <= usize::MAX,
    ensures
        crate::ast::agrees(r, spec_shuf_group(s@, pos)),
        r matches Some((_, e)) ==> pos < e <= s@.len(),
    decreases s@.len() - pos, 2nat,
{
    let w = ['s', 'h', 'u', 'f'];
    assert(w@ =~= w_shuf());
    let (items, e) = kw_list(s, pos, &w)?;
    Some((Node::ShuffledSequence(items), e))
}

/// Reads `par( exprs, exprs, ... )`.
pub fn par_group(s: &Vec<char>, pos: usize) -> (r: Option<(Node, usize)>)
    requires
        pos <= s@.len() <= usize::MAX,
    ensures
        crate::ast::agrees(r, spec_par_group(s@, pos)),
        r matches Some((_, e)) ==> pos < e <= s@.len(),
    decreases s@.len() - pos, 2nat,
{
    let w = ['p', 'a', 'r'];
    assert(w@ =~= w_par());
    let (ls, e) = kw_layers(s, pos, &w)?;
    Some((Node::Parallel(ls), e))
}

/// Reads `poly( exprs, exprs, ... )`.
pub fn poly_group(s: &Vec<char>, pos: usize) -> (r: Option<(Node, usize)>)
    requires
        pos <= s@.len() <= usize::MAX,
    ensures
        crate::ast::agrees(r, spec_poly_group(s@, pos)),
        r matches Some((_, e)) ==> pos < e <= s@.len(),
    decreases s@.len() - pos, 2nat,
{
    let w = ['p', 'o', 'l', 'y'];
    assert(w@ =~= w_poly());
    let (ls, e) = kw_layers(s, pos, &w)?;
    Some((Node::Polymeter(ls), e))
}

/// Reads `word( exprs )`.
fn kw_list(s: &Vec<char>, pos: usize, w: &[char]) -> (r: Option<(Vec<Node>, usize)>)
    requires
        pos <= s@.len() <= usize::MAX,
    ensures
        match r {
            Some((v, e)) => spec_kw_list(s@, pos, w@) == Some((nodes_view(v@), e)) && pos < e
                <= s@.len(),
            None => spec_kw_list(s@, pos, w@) is None,
        },
    decreases s@.len() - pos, 1nat,
{
    let p1 = kw(s, pos, w)?;
    let p2 = pad_char(s, p1, '(')?;
    let (items, p3) = expr_list(s, p2);
    let p4 = pad_char(s, p3, ')')?;
    Some((items, p4))
}

fn rnd_weight(s: &Vec<char>, pos: usize) -> (r: (Option<u8>, usize))
    requires
        pos <= s@.len() <= usize::MAX,
    ensures
        r == spec_rnd_weight(s@, pos),
        pos <= r.1 <= s@.len(),
{
    proof {
        lemma_rnd_weight(s@, pos);
    }
    let q = padding(s, pos);
    match int_u8(s, q) {
        Some((w, e)) => {
            let q2 = padding(s, e);
            match pad_char(s, q2, ':') {
                Some(p) => (Some(w), p),
                None => (None, pos),
            }
        },
        None => (None, pos),
    }
}

fn rnd_branch(s: &Vec<char>, pos: usize) -> (r: ((u32, Node), usize))
    requires
        pos <= s@.len() <= usize::MAX,
    ensures
        (r.0.0, r.0.1@) == spec_rnd_branch(s@, pos).0,
        r.1 == spec_rnd_branch(s@, pos).1,
        pos <= r.1 <= s@.len(),
    decreases s@.len() - pos, 6nat,
{
    let (w, p1) = rnd_weight(s, pos);
    let (items, p2) = expr_list(s, p1);
    let wt: u32 = match w {
        Some(x) => x as u32,
        None => 1,
    };
    ((wt, single_or_seq_exec(items)), p2)
}

fn rnd_branches(s: &Vec<char>, pos: usize) -> (r: (Vec<(u32, Node)>, usize))
    requires
        pos <= s@.len() <= usize::MAX,
    ensures
        weighted_view(r.0@) == spec_rnd_branches(s@, pos).0,
        r.1 == spec_rnd_branches(s@, pos).1,
        pos <= r.1 <= s@.len(),
    decreases s@.len() - pos, 7nat,
{
    let (b, p1) = rnd_branch(s, pos);
    let mut out: Vec<(u32, Node)> = Vec::new();
    proof {
        lemma_weighted_view_push(out@, b);
        assert(weighted_view(out@) =~= Seq::<(u32, SNode)>::empty());
    }
    out.push(b);
    let mut p = p1;
    let ghost target = spec_rnd_branches(s@, pos);
    proof {
        assert(target.0 =~= weighted_view(out@) + spec_rnd_rest(s@, p).0);
    }
    loop
        invariant
            pos <= p <= s@.len() <= usize::MAX,
            target == spec_rnd_branches(s@, pos),
            target.0 == weighted_view(out@) + spec_rnd_rest(s@, p).0,
            target.1 == spec_rnd_rest(s@, p).1,
        decreases s@.len() - p,
    {
        match pad_char(s, p, ',') {
            Some(q) => {
                let (b2, p2) = rnd_branch(s, q);
                if p < p2 {
                    proof {
                        let rest = spec_rnd_rest(s@, p2).0;
                        lemma_weighted_view_push(out@, b2);
                        assert(weighted_view(out@) + (seq![(b2.0, b2.1@)] + rest) =~= weighted_view(
                            out@,
                        ).push((b2.0, b2.1@)) + rest);
                    }
                    out.push(b2);
                    p = p2;
                } else {
                    proof {
                        assert(target.0 =~= weighted_view(out@));
                    }
                    return (out, p);
                }
            },
            None => {
                proof {
                    assert(target.0 =~= weighted_view(out@));
                }
                return (out, p);
            },
        }
    }
}

/// Reads `rnd( [w:] exprs, ... )`.
pub fn rnd_group(s: &Vec<char>, pos: usize) -> (r: Option<(Node, usize)>)
    requires
        pos <= s@.len() <= usize::MAX,
    ensures
        crate::ast::agrees(r, spec_rnd_group(s@, pos)),
        r matches Some((_, e)) ==> pos < e <= s@.len(),
    decreases s@.len() - pos, 2nat,
{
    let w = ['r', 'n', 'd'];
    assert(w@ =~= w_rnd());
    let p1 = kw(s, pos, &w)?;
    let p2 = pad_char(s, p1, '(')?;
    let (bs, p3) = rnd_branches(s, p2);
    let p4 = pad_char(s, p3, ')')?;
    Some((Node::RandomChoice(bs), p4))
}

fn layers(s: &Vec<char>, pos: usize) -> (r: (Vec<Vec<Node>>, usize))
    requires
        pos <= s@.len() <= usize::MAX,
    ensures
        layers_view(r.0@) == spec_layers(s@, pos).0,
        r.1 == spec_layers(s@, pos).1,
        pos <= r.1 <= s@.len(),
    decreases s@.len() - pos, 7nat,
{
    let (l0, p1) = expr_list(s, pos);
    let mut out: Vec<Vec<Node>> = Vec::new();
    proof {
        lemma_layers_view_push(out@, l0);
        assert(layers_view(out@) =~= Seq::<Seq<SNode>>::empty());
    }
    out.push(l0);
    let mut p = p1;
    let ghost target = spec_layers(s@, pos);
    proof {
        assert(target.0 =~= layers_view(out@) + spec_layers_rest(s@, p).0);
    }
    loop
        invariant
            pos <= p <= s@.len() <= usize::MAX,
            target == spec_layers(s@, pos),
            target.0 == layers_view(out@) + spec_layers_rest(s@, p).0,
            target.1 == spec_layers_rest(s@, p).1,
        decreases s@.len() - p,
    {
        match pad_char(s, p, ',') {
            Some(q) => {
                let (l, p2) = expr_list(s, q);
                if p < p2 {
                    proof {
                        let rest = spec_layers_rest(s@, p2).0;
                        lemma_layers_view_push(out@, l);
                        assert(layers_view(out@) + (seq![nodes_view(l@)] + rest) =~= layers_view(
                            out@,
                        ).push(nodes_view(l@)) + rest);
                    }
                    out.push(l);
                    p = p2;
                } else {
                    proof {
                        assert(target.0 =~= layers_view(out@));
                    }
                    return (out, p);
                }
            },
            None => {
                proof {
                    assert(target.0 =~= layers_view(out@));
                }
                return (out, p);
            },
        }
    }
}

/// Reads `word( exprs, exprs, ... )`.
fn kw_layers(s: &Vec<char>, pos: usize, w: &[char]) -> (r: Option<(Vec<Vec<Node>>, usize)>)
    requires
        pos <= s@.len() <= usize::MAX,
    ensures
        match r {
            Some((v, e)) => spec_kw_layers(s@, pos, w@) == Some((layers_view(v@), e)) && pos < e
                <= s@.len(),
            None => spec_kw_layers(s@, pos, w@) is None,
        },
    decreases s@.len() - pos, 1nat,
{
    let p1 = kw(s, pos, w)?;
    let p2 = pad_char(s, p1, '(')?;
    let (ls, p3) = layers(s, p2);
    let p4 = pad_char(s, p3, ')')?;
    Some((ls, p4))
}

/// Reads `struct(mask, content)`.
#[verifier::rlimit(40)]
pub fn struct_group(s: &Vec<char>, pos: usize) -> (r: Option<(Node, usize)>)
    requires
        pos <= s@.len() <= usize::MAX,
    ensures
        crate::ast::agrees(r, spec_struct_group(s@, pos)),
        r matches Some((_, e)) ==> pos < e <= s@.len(),
    decreases s@.len() - pos, 2nat,
{
    let w = ['s', 't', 'r', 'u', 'c', 't'];
    assert(w@ =~= w_struct());
    let p1 = kw(s, pos, &w)?;
    let p2 = pad_char(s, p1, '(')?;
    let (a, p3) = expr(s, p2)?;
    let p4 = pad_char(s, p3, ',')?;
    let (b, p5) = expr(s, p4)?;
    let p6 = pad_char(s, p5, ')')?;
    Some((Node::Struct(Box::new(a), Box::new(b)), p6))
}

fn arr_head(s: &Vec<char>, pos: usize) -> (r: Option<(usize, usize, usize)>)
    requires
        pos <= s@.len() <= usize::MAX,
    ensures
        r == spec_arr_head(s@, pos),
        r matches Some((_, _, e)) ==> pos < e <= s@.len(),
{
    proof {
        lemma_arr_head(s@, pos);
    }
    let p1 = pad_char(s, pos, '(')?;
    let (a, p2) = int_usize(s, p1)?;
    let p3 = pad_char(s, p2, ',')?;
    let (b, p4) = int_usize(s, p3)?;
    let p5 = pad_char(s, p4, ')')?;
    let p6 = pad_char(s, p5, ':')?;
    Some((a, b, p6))
}

fn arr_segment(s: &Vec<char>, pos: usize) -> (r: Option<((usize, usize, Box<Node>), usize)>)
    requires
        pos <= s@.len() <= usize::MAX,
    ensures
        match r {
            Some((g, e)) => spec_arr_segment(s@, pos) == Some(((g.0, g.1, node_view(*g.2)), e)) && e
                <= s@.len(),
            None => spec_arr_segment(s@, pos) is None,
        },
    decreases s@.len() - pos, 6nat,
{
    let (a, b, p1) = arr_head(s, pos)?;
    let (items, p2) = expr_list(s, p1);
    if items.len() == 0 {
        None
    } else {
        Some(((a, b, Box::new(single_or_seq_exec(items))), p2))
    }
}

fn after_item(s: &Vec<char>, pos: usize) -> (r: usize)
    requires
        pos <= s@.len() <= usize::MAX,
    ensures
        r == spec_after_item(s@, pos),
        pos <= r <= s@.len(),
{
    proof {
        lemma_after_item(s@, pos);
    }
    let q = padding(s, pos);
    match pad_char(s, q, ',') {
        Some(p) => p,
        None => q,
    }
}

fn arr_segments(s: &Vec<char>, pos: usize) -> (r: (Vec<(usize, usize, Box<Node>)>, usize))
    requires
        pos <= s@.len() <= usize::MAX,
    ensures
        segments_view(r.0@) == spec_arr_segments(s@, pos).0,
        r.1 == spec_arr_segments(s@, pos).1,
        pos <= r.1 <= s@.len(),
    decreases s@.len() - pos, 7nat,
{
    let mut out: Vec<(usize, usize, Box<Node>)> = Vec::new();
    let mut p = pos;
    let ghost target = spec_arr_segments(s@, pos);
    proof {
        assert(segments_view(out@) =~= Seq::<(usize, usize, SNode)>::empty());
        assert(target.0 =~= segments_view(out@) + spec_arr_segments(s@, p).0);
    }
    loop
        invariant
            pos <= p <= s@.len() <= usize::MAX,
            target == spec_arr_segments(s@, pos),
            target.0 == segments_view(out@) + spec_arr_segments(s@, p).0,
            target.1 == spec_arr_segments(s@, p).1,
        decreases s@.len() - p,
    {
        let p0 = padding(s, p);
        match arr_segment(s, p0) {
            Some((g, p1)) => {
                if p0 < p1 {
                    let p2 = after_item(s, p1);
                    proof {
                        let rest = spec_arr_segments(s@, p2).0;
                        lemma_segments_view_push(out@, g);
                        assert(segments_view(out@) + (seq![(g.0, g.1, node_view(*g.2))] + rest)
                            =~= segments_view(out@).push((g.0, g.1, node_view(*g.2))) + rest);
                    }
                    out.push(g);
                    p = p2;
                } else {
                    proof {
                        assert(target.0 =~= segments_view(out@));
                    }
                    return (out, p);
                }
            },
            None => {
                proof {
                    assert(target.0 =~= segments_view(out@));
                }
                return (out, p);
            },
        }
    }
}

/// Reads `arrange [ (start, end): exprs, ... ]`.
pub fn arrange(s: &Vec<char>, pos: usize) -> (r: Option<(Node, usize)>)
    requires
        pos <= s@.len() <= usize::MAX,
    ensures
        crate::ast::agrees(r, spec_arrange(s@, pos)),
        r matches Some((_, e)) ==> pos < e <= s@.len(),
    decreases s@.len() - pos, 2nat,
{
    let w = ['a', 'r', 'r', 'a', 'n', 'g', 'e'];
    assert(w@ =~= w_arrange());
    let p1 = kw(s, pos, &w)?;
    let p2 = pad_char(s, p1, '[')?;
    let (segs, p3) = arr_segments(s, p2);
    let p4 = pad_char(s, p3, ']')?;
    Some((Node::Arrange(segs), p4))
}

/// The view of chain segments.
pub open spec fn chain_view(v: Seq<(usize, Node)>) -> Seq<(usize, SNode)> {
    v.map_values(|e: (usize, Node)| (e.0, node_view(e.1)))
}

fn chain_seg(s: &Vec<char>, pos: usize) -> (r: Option<((usize, Node), usize)>)
    requires
        pos <= s@.len() <= usize::MAX,
    ensures
        match r {
            Some((g, e)) => spec_chain_seg(s@, pos) == Some(((g.0, g.1@), e)) && e <= s@.len(),
            None => spec_chain_seg(s@, pos) is None,
        },
    decreases s@.len() - pos, 6nat,
{
    let (d, p1) = int_usize(s, pos)?;
    let p2 = pad_char(s, p1, ':')?;
    let (items, p3) = expr_list(s, p2);
    if items.len() == 0 {
        None
    } else {
        Some(((d, single_or_seq_exec(items)), p3))
    }
}

fn chain_segments(s: &Vec<char>, pos: usize) -> (r: (Vec<(usize, Node)>, usize))
    requires
        pos <= s@.len() <= usize::MAX,
    ensures
        chain_view(r.0@) == spec_chain_segments(s@, pos).0,
        r.1 == spec_chain_segments(s@, pos).1,
        pos <= r.1 <= s@.len(),
    decreases s@.len() - pos, 7nat,
{
    let mut out: Vec<(usize, Node)> = Vec::new();
    let mut p = pos;
    let ghost target = spec_chain_segments(s@, pos);
    proof {
        assert(chain_view(out@) =~= Seq::<(usize, SNode)>::empty());
        assert(target.0 =~= chain_view(out@) + spec_chain_segments(s@, p).0);
    }
    loop
        invariant
            pos <= p <= s@.len() <= usize::MAX,
            target == spec_chain_segments(s@, pos),
            target.0 == chain_view(out@) + spec_chain_segments(s@, p).0,
            target.1 == spec_chain_segments(s@, p).1,
        decreases s@.len() - p,
    {
        let p0 = padding(s, p);
        match chain_seg(s, p0) {
            Some((g, p1)) => {
                if p0 < p1 {
                    let p2 = after_item(s, p1);
                    proof {
                        let rest = spec_chain_segments(s@, p2).0;
                        assert(chain_view(out@.push(g)) =~= chain_view(out@).push((g.0, g.1@)));
                        assert(chain_view(out@) + (seq![(g.0, g.1@)] + rest) =~= chain_view(out@).push(
                            (g.0, g.1@),
                        ) + rest);
                    }
                    out.push(g);
                    p = p2;
                } else {
                    proof {
                        assert(target.0 =~= chain_view(out@));
                    }
                    return (out, p);
                }
            },
            None => {
                proof {
                    assert(target.0 =~= chain_view(out@));
                }
                return (out, p);
            },
        }
    }
}

/// Lays chained segments end to end from cycle 0; `None` when an end would
/// not fit in a `usize`.
fn chain_to_arrange(chained: Vec<(usize, Node)>) -> (r: Option<Vec<(usize, usize, Box<Node>)>>)
    ensures
        match r {
            Some(v) => chain_arrange(chain_view(chained@), 0) == Some(segments_view(v@)),
            None => chain_arrange(chain_view(chained@), 0) is None,
        },
{
    let ghost whole = chain_view(chained@);
    let mut segs = chained;
    let mut out: Vec<(usize, usize, Box<Node>)> = Vec::new();
    let mut start: usize = 0;
    let ghost mut i: int = 0;
    proof {
        assert(segments_view(out@) =~= Seq::<(usize, usize, SNode)>::empty());
        assert(whole.skip(0) =~= whole);
        assert(Seq::<(usize, usize, SNode)>::empty() + segments_view(out@) =~= segments_view(out@));
    }
    while segs.len() > 0
        invariant
            0 <= i <= whole.len(),
            whole == chain_view(chained@),
            chain_view(segs@) == whole.skip(i),
            chain_arrange(whole, 0) == match chain_arrange(whole.skip(i), start as nat) {
                Some(rest) => Some(segments_view(out@) + rest),
                None => None::<Seq<(usize, usize, SNode)>>,
            },
        decreases segs.len(),
    {
        let ghost before = segs@;
        let (d, n) = segs.remove(0);
        proof {
            assert(chain_view(before)[0] == (d, n@));
            assert(chain_view(segs@) =~= chain_view(before).drop_first());
            assert(whole.skip(i).drop_first() =~= whole.skip(i + 1));
        }
        if d > usize::MAX - start {
            assert(chain_arrange(whole.skip(i), start as nat) is None);
            return None;
        }
        let end = start + d;
        let g = (start, end, Box::new(n));
        proof {
            lemma_segments_view_push(out@, g);
            let tail = chain_arrange(whole.skip(i + 1), end as nat);
            if let Some(rest) = tail {
                assert(segments_view(out@) + (seq![(start, end, n@)] + rest) =~= segments_view(
                    out@,
                ).push((start, end, n@)) + rest);
            }
        }
        out.push(g);
        start = end;
        proof {
            i = i + 1;
        }
    }
    proof {
        assert(whole.skip(i) =~= Seq::<(usize, SNode)>::empty());
        assert(segments_view(out@) + Seq::<(usize, usize, SNode)>::empty() =~= segments_view(out@));
    }
    Some(out)
}

/// Reads `chain [ n: exprs, ... ]`.
pub fn chain_loop(s: &Vec<char>, pos: usize) -> (r: Option<(Node, usize)>)
    requires
        pos <= s@.len() <= usize::MAX,
    ensures
        crate::ast::agrees(r, spec_chain_loop(s@, pos)),
        r matches Some((_, e)) ==> pos < e <= s@.len(),
    decreases s@.len() - pos, 2nat,
{
    let w = ['c', 'h', 'a', 'i', 'n'];
    assert(w@ =~= w_chain());
    let p1 = kw(s, pos, &w)?;
    let p2 = pad_char(s, p1, '[')?;
    let (segs, p3) = chain_segments(s, p2);
    let p4 = pad_char(s, p3, ']')?;
    let arr = chain_to_arrange(segs)?;
    Some((Node::Arrange(arr), p4))
}

/// Whether `s[start..end]` is a reserved name.
pub fn reserved_name(s: &Vec<char>, start: usize, end: usize) -> (r: bool)
    requires
        start <= end <= s@.len(),
    ensures
        r == is_reserved_name(s@.subrange(start as int, end as int)),
{
    let ghost name = s@.subrange(start as int, end as int);
    if end - start == 3 && s[start] == 'l' && s[start + 1] == 'e' && s[start + 2] == 't' {
        assert(name =~= seq!['l', 'e', 't']);
        return true;
    }
    assert(name != seq!['l', 'e', 't']) by {
        if name == seq!['l', 'e', 't'] {
            assert(name.len() == 3);
            assert(name[0] == s@[start as int]);
            assert(name[1] == s@[start + 1]);
            assert(name[2] == s@[start + 2]);
        }
    }
    if end - start <= 1 || s[start] != 'T' {
        return false;
    }
    let mut i = start + 1;
    while i < end
        invariant
            start < i <= end <= s@.len(),
            end - start > 1,
            name == s@.subrange(start as int, end as int),
            name != seq!['l', 'e', 't'],
            name[0] == 'T',
            forall|k: int| 1 <= k < i - start ==> is_digit(#[trigger] name[k]),
        decreases end - i,
    {
        if !('0' <= s[i] && s[i] <= '9') {
            assert(!is_digit(name[i - start]));
            return false;
        }
        i += 1;
    }
    true
}

fn args_list(s: &Vec<char>, pos: usize) -> (r: (Vec<Node>, usize))
    requires
        pos <= s@.len() <= usize::MAX,
    ensures
        nodes_view(r.0@) == spec_args_list(s@, pos).0,
        r.1 == spec_args_list(s@, pos).1,
        pos <= r.1 <= s@.len(),
    decreases s@.len() - pos, 6nat,
{
    let mut out: Vec<Node> = Vec::new();
    proof {
        lemma_nodes_view_empty();
    }
    let p0 = padding(s, pos);
    let (n, p1) = match expr(s, p0) {
        Some(x) => x,
        None => {
            return (out, pos);
        },
    };
    let mut p = padding(s, p1);
    let ghost target = spec_args_list(s@, pos);
    proof {
        lemma_nodes_view_push(out@, n);
    }
    out.push(n);
    proof {
        assert(target.0 =~= nodes_view(out@) + spec_args_rest(s@, p).0);
    }
    loop
        invariant
            pos <= p <= s@.len() <= usize::MAX,
            target == spec_args_list(s@, pos),
            target.0 == nodes_view(out@) + spec_args_rest(s@, p).0,
            target.1 == spec_args_rest(s@, p).1,
        decreases s@.len() - p,
    {
        let q = match pad_char(s, p, ',') {
            Some(q1) => padding(s, q1),
            None => {
                proof {
                    assert(target.0 =~= nodes_view(out@));
                }
                return (out, p);
            },
        };
        match expr(s, q) {
            Some((m, p2)) => {
                let p3 = padding(s, p2);
                proof {
                    let rest = spec_args_rest(s@, p3).0;
                    lemma_nodes_view_push(out@, m);
                    assert(nodes_view(out@) + (seq![m@] + rest) =~= nodes_view(out@).push(m@) + rest);
                }
                out.push(m);
                p = p3;
            },
            None => {
                proof {
                    assert(target.0 =~= nodes_view(out@));
                }
                return (out, p);
            },
        }
    }
}

/// Reads a macro reference: a name that is not reserved, with optional
/// `(args)`.
pub fn alias_ref(s: &Vec<char>, pos: usize) -> (r: Option<(Node, usize)>)
    requires
        pos <= s@.len() <= usize::MAX,
    ensures
        crate::ast::agrees(r, spec_alias_ref(s@, pos)),
        r matches Some((_, e)) ==> pos < e <= s@.len(),
    decreases s@.len() - pos, 2nat,
{
    let e = ident(s, pos)?;
    if reserved_name(s, pos, e) {
        return None;
    }
    let name = substring(s, pos, e);
    if let Some(p1) = pad_char(s, e, '(') {
        let (a, p2) = args_list(s, p1);
        if let Some(p3) = pad_char(s, p2, ')') {
            return Some((Node::Ref(name, a), p3));
        }
    }
    let none: Vec<Node> = Vec::new();
    proof {
        lemma_nodes_view_empty();
    }
    Some((Node::Ref(name, none), e))
}

} // verus!

//! Macro expansion: every reference is replaced by the body of its macro,
//! with the macro's parameters bound to the (expanded) arguments.
use vstd::prelude::*;
use crate::aliases::{find_alias, insert_alias, lemma_alias_pos, lookup_alias, put_alias};
use crate::ast::{
    aliases_view, clone_node, clone_string, layers_view, nodes_view, segments_view, strings_view,
    weighted_view, MacroDef, Node, Program, SMacro, SNode,
};

verus! {

/// How deep macros may nest before expansion gives up.
pub const MAX_EXPANSION_DEPTH: usize = 32;

/// Why an expansion failed.
pub enum SExpandError {
    TooDeep,
    WrongArgCount(Seq<char>, usize, usize),
    Unresolved(Seq<char>),
}

/// The table in which a macro's body is expanded: the outer table with each
/// parameter bound, in order, to a macro without parameters whose body is
/// the argument.
pub open spec fn bind_params(
    env: Seq<(Seq<char>, SMacro)>,
    params: Seq<Seq<char>>,
    args: Seq<SNode>,
) -> Seq<(Seq<char>, SMacro)>
    decreases params.len(),
{
    if params.len() == 0 || args.len() == 0 {
        env
    } else {
        bind_params(
            put_alias(env, params[0], SMacro { params: Seq::empty(), body: args[0] }),
            params.drop_first(),
            args.drop_first(),
        )
    }
}

/// The node after expansion at `depth`, and the error that stopped it, if
/// any. On an error the node is left as far as expansion had got: children
/// before the failing one expanded, the failing one partly, the rest as they
/// were.
pub open spec fn expand(n: SNode, env: Seq<(Seq<char>, SMacro)>, depth: nat) -> (SNode, Option<SExpandError>)
    decreases 33 - depth, n,
{
    if depth > 32 {
        (n, Some(SExpandError::TooDeep))
    } else {
        match n {
            SNode::Ref(name, args) => {
                let (args2, e) = expand_list(args, env, depth);
                if e is Some {
                    (SNode::Ref(name, args2), e)
                } else {
                    match lookup_alias(env, name) {
                        Some(def) => if args2.len() != def.params.len() {
                            (
                                SNode::Ref(name, args2),
                                Some(
                                    SExpandError::WrongArgCount(
                                        name,
                                        def.params.len() as usize,
                                        args2.len() as usize,
                                    ),
                                ),
                            )
                        } else {
                            let local = bind_params(env, def.params, args2);
                            let (b2, e2) = expand(def.body, local, depth + 1);
                            if e2 is Some {
                                (SNode::Ref(name, args2), e2)
                            } else {
                                (b2, None)
                            }
                        },
                        None => (SNode::Ref(name, args2), Some(SExpandError::Unresolved(name))),
                    }
                }
            },
            SNode::Chord(v) => {
                let (v2, e) = expand_list(v, env, depth);
                (SNode::Chord(v2), e)
            },
            SNode::Sequence(v) => {
                let (v2, e) = expand_list(v, env, depth);
                (SNode::Sequence(v2), e)
            },
            SNode::ShuffledSequence(v) => {
                let (v2, e) = expand_list(v, env, depth);
                (SNode::ShuffledSequence(v2), e)
            },
            SNode::Alternator(v) => {
                let (v2, e) = expand_list(v, env, depth);
                (SNode::Alternator(v2), e)
            },
            SNode::RandomChoice(w) => {
                let (w2, e) = expand_weighted(w, env, depth);
                (SNode::RandomChoice(w2), e)
            },
            SNode::Parallel(ls) => {
                let (ls2, e) = expand_layers(ls, env, depth);
                (SNode::Parallel(ls2), e)
            },
            SNode::Polymeter(ls) => {
                let (ls2, e) = expand_layers(ls, env, depth);
                (SNode::Polymeter(ls2), e)
            },
            SNode::Arrange(segs) => {
                let (segs2, e) = expand_segments(segs, env, depth);
                (SNode::Arrange(segs2), e)
            },
            SNode::WithScale(sc, c) => {
                let (c2, e) = expand(*c, env, depth);
                (SNode::WithScale(sc, Box::new(c2)), e)
            },
            SNode::Struct(a, b) => {
                let (a2, e) = expand(*a, env, depth);
                if e is Some {
                    (SNode::Struct(Box::new(a2), b), e)
                } else {
                    let (b2, e2) = expand(*b, env, depth);
                    (SNode::Struct(Box::new(a2), Box::new(b2)), e2)
                }
            },
            SNode::Modified(c, mods) => {
                let (c2, e) = expand(*c, env, depth);
                (SNode::Modified(Box::new(c2), mods), e)
            },
            SNode::Condition { scope, interval, offset, then_branch, else_branch } => {
                let (t2, e) = expand(*then_branch, env, depth);
                if e is Some {
                    (SNode::Condition { scope, interval, offset, then_branch: Box::new(t2), else_branch }, e)
                } else {
                    let (f2, e2) = expand(*else_branch, env, depth);
                    (SNode::Condition { scope, interval, offset, then_branch: Box::new(t2), else_branch: Box::new(f2) }, e2)
                }
            },
            _ => (n, None),
        }
    }
}

/// Expands the nodes of `v` in order, stopping at the first error.
pub open spec fn expand_list(v: Seq<SNode>, env: Seq<(Seq<char>, SMacro)>, depth: nat) -> (Seq<SNode>, Option<SExpandError>)
    decreases 33 - depth, v,
{
    if v.len() == 0 {
        (v, None)
    } else {
        proof {
            assert(decreases_to!(v => v[0]));
            assert(decreases_to!(v => v.subrange(1, v.len() as int)));
        }
        let (h, e) = expand(v[0], env, depth);
        if e is Some {
            (seq![h] + v.subrange(1, v.len() as int), e)
        } else {
            let (t, e2) = expand_list(v.subrange(1, v.len() as int), env, depth);
            (seq![h] + t, e2)
        }
    }
}

/// The same over weighted choices.
pub open spec fn expand_weighted(w: Seq<(u32, SNode)>, env: Seq<(Seq<char>, SMacro)>, depth: nat) -> (Seq<(u32, SNode)>, Option<SExpandError>)
    decreases 33 - depth, w,
{
    if w.len() == 0 {
        (w, None)
    } else {
        proof {
            assert(decreases_to!(w => w[0]));
            assert(decreases_to!(w[0] => w[0].1));
            assert(decreases_to!(w => w.subrange(1, w.len() as int)));
        }
        let (h, e) = expand(w[0].1, env, depth);
        if e is Some {
            (seq![(w[0].0, h)] + w.subrange(1, w.len() as int), e)
        } else {
            let (t, e2) = expand_weighted(w.subrange(1, w.len() as int), env, depth);
            (seq![(w[0].0, h)] + t, e2)
        }
    }
}

/// The same over layers.
pub open spec fn expand_layers(ls: Seq<Seq<SNode>>, env: Seq<(Seq<char>, SMacro)>, depth: nat) -> (Seq<Seq<SNode>>, Option<SExpandError>)
    decreases 33 - depth, ls,
{
    if ls.len() == 0 {
        (ls, None)
    } else {
        proof {
            assert(decreases_to!(ls => ls[0]));
            assert(decreases_to!(ls => ls.subrange(1, ls.len() as int)));
        }
        let (h, e) = expand_list(ls[0], env, depth);
        if e is Some {
            (seq![h] + ls.subrange(1, ls.len() as int), e)
        } else {
            let (t, e2) = expand_layers(ls.subrange(1, ls.len() as int), env, depth);
            (seq![h] + t, e2)
        }
    }
}

/// The same over arrangement segments.
pub open spec fn expand_segments(
    segs: Seq<(usize, usize, SNode)>,
    env: Seq<(Seq<char>, SMacro)>,
    depth: nat,
) -> (Seq<(usize, usize, SNode)>, Option<SExpandError>)
    decreases 33 - depth, segs,
{
    if segs.len() == 0 {
        (segs, None)
    } else {
        proof {
            assert(decreases_to!(segs => segs[0]));
            assert(decreases_to!(segs[0] => segs[0].2));
            assert(decreases_to!(segs => segs.subrange(1, segs.len() as int)));
        }
        let (h, e) = expand(segs[0].2, env, depth);
        if e is Some {
            (seq![(segs[0].0, segs[0].1, h)] + segs.subrange(1, segs.len() as int), e)
        } else {
            let (t, e2) = expand_segments(segs.subrange(1, segs.len() as int), env, depth);
            (seq![(segs[0].0, segs[0].1, h)] + t, e2)
        }
    }
}


/// Why an expansion failed: a nesting deeper than the limit, a macro called
/// with the wrong number of arguments (name, expected, given), or a name
/// that no macro has.
#[derive(Debug)]
pub enum ExpandError {
    TooDeep,
    WrongArgCount(String, usize, usize),
    Unresolved(String),
}

impl View for ExpandError {
    type V = SExpandError;

    open spec fn view(&self) -> SExpandError {
        match self {
            ExpandError::TooDeep => SExpandError::TooDeep,
            ExpandError::WrongArgCount(n, a, b) => SExpandError::WrongArgCount(n@, *a, *b),
            ExpandError::Unresolved(n) => SExpandError::Unresolved(n@),
        }
    }
}

/// The message that tells a user why expansion failed.
pub open spec fn expand_message(e: SExpandError) -> Seq<char> {
    match e {
        SExpandError::TooDeep => "Max macro expansion depth exceeded (circular reference?)"@,
        SExpandError::WrongArgCount(name, expected, given) => "Macro '"@ + name + "' expects "@
            + crate::text::nat_text(expected as nat) + " args, got "@ + crate::text::nat_text(given as nat),
        SExpandError::Unresolved(name) => "Unresolved alias: '"@ + name + "'"@,
    }
}

impl ExpandError {
    /// The message for the user.
    pub fn message(&self) -> (r: String)
        ensures
            r@ == expand_message(self@),
    {
        let mut out: Vec<char>;
        match self {
            ExpandError::TooDeep => {
                out = crate::parser::program::text_chars("Max macro expansion depth exceeded (circular reference?)");
            },
            ExpandError::WrongArgCount(name, expected, given) => {
                out = crate::parser::program::text_chars("Macro '");
                crate::text::push_str(&mut out, &crate::parser::program::text_chars(name.as_str()));
                crate::text::push_str(&mut out, &crate::parser::program::text_chars("' expects "));
                crate::text::push_nat(&mut out, *expected as u64);
                crate::text::push_str(&mut out, &crate::parser::program::text_chars(" args, got "));
                crate::text::push_nat(&mut out, *given as u64);
            },
            ExpandError::Unresolved(name) => {
                out = crate::parser::program::text_chars("Unresolved alias: '");
                crate::text::push_str(&mut out, &crate::parser::program::text_chars(name.as_str()));
                crate::text::push_str(&mut out, &crate::parser::program::text_chars("'"));
            },
        }
        crate::parser::primitives::chars_to_string(&out)
    }
}

/// The error of a result, as a view.
pub open spec fn err_view(r: Result<(), ExpandError>) -> Option<SExpandError> {
    match r {
        Ok(_) => None,
        Err(e) => Some(e@),
    }
}

fn clone_strings(v: &Vec<String>) -> (r: Vec<String>)
    ensures
        strings_view(r@) == strings_view(v@),
{
    let mut out: Vec<String> = Vec::new();
    let mut i: usize = 0;
    while i < v.len()
        invariant
            0 <= i <= v@.len(),
            strings_view(out@) == strings_view(v@.take(i as int)),
        decreases v.len() - i,
    {
        let c = clone_string(&v[i]);
        proof {
            assert(v@.take(i + 1) =~= v@.take(i as int).push(v@[i as int]));
            assert(strings_view(out@.push(c)) =~= strings_view(out@).push(c@));
            assert(strings_view(v@.take(i as int).push(v@[i as int])) =~= strings_view(v@.take(i as int)).push(v@[i as int]@));
        }
        out.push(c);
        i += 1;
    }
    assert(v@.take(v@.len() as int) =~= v@);
    out
}

fn clone_aliases(env: &Vec<(String, MacroDef)>) -> (r: Vec<(String, MacroDef)>)
    ensures
        aliases_view(r@) == aliases_view(env@),
{
    let mut out: Vec<(String, MacroDef)> = Vec::new();
    let mut i: usize = 0;
    while i < env.len()
        invariant
            0 <= i <= env@.len(),
            aliases_view(out@) == aliases_view(env@.take(i as int)),
        decreases env.len() - i,
    {
        let name = clone_string(&env[i].0);
        let def = MacroDef { params: clone_strings(&env[i].1.params), body: clone_node(&env[i].1.body) };
        proof {
            assert(env@.take(i + 1) =~= env@.take(i as int).push(env@[i as int]));
            assert(aliases_view(out@.push((name, def))) =~= aliases_view(out@).push((name@, def@)));
            assert(aliases_view(env@.take(i as int).push(env@[i as int])) =~= aliases_view(env@.take(i as int)).push((env@[i as int].0@, env@[i as int].1@)));
        }
        out.push((name, def));
        i += 1;
    }
    assert(env@.take(env@.len() as int) =~= env@);
    out
}

/// The table for a macro's body: `env` with each parameter bound to its argument.
fn bind_args(env: &Vec<(String, MacroDef)>, params: &Vec<String>, args: &Vec<Node>) -> (r: Vec<(String, MacroDef)>)
    requires
        params@.len() == args@.len(),
    ensures
        aliases_view(r@) == bind_params(aliases_view(env@), strings_view(params@), nodes_view(args@)),
{
    let mut local = clone_aliases(env);
    let ghost ps = strings_view(params@);
    let ghost xs = nodes_view(args@);
    let mut k: usize = 0;
    assert(ps.skip(0) =~= ps);
    assert(xs.skip(0) =~= xs);
    while k < params.len()
        invariant
            0 <= k <= params@.len(),
            params@.len() == args@.len(),
            ps == strings_view(params@),
            xs == nodes_view(args@),
            bind_params(aliases_view(env@), ps, xs) == bind_params(
                aliases_view(local@),
                ps.skip(k as int),
                xs.skip(k as int),
            ),
        decreases params.len() - k,
    {
        proof {
            assert(ps.skip(k as int)[0] == params@[k as int]@);
            assert(xs.skip(k as int)[0] == args@[k as int]@);
            assert(ps.skip(k as int).drop_first() =~= ps.skip(k + 1));
            assert(xs.skip(k as int).drop_first() =~= xs.skip(k + 1));
        }
        let body = clone_node(&args[k]);
        let none: Vec<String> = Vec::new();
        assert(strings_view(none@) =~= Seq::<Seq<char>>::empty());
        insert_alias(&mut local, clone_string(&params[k]), MacroDef { params: none, body });
        k += 1;
    }
    proof {
        assert(ps.skip(k as int).len() == 0);
    }
    local
}

/// Expands an owned node; answers the node as far as expansion got and the
/// outcome.
fn expand_node(n: Node, env: &Vec<(String, MacroDef)>, depth: usize) -> (r: (Node, Result<(), ExpandError>))
    ensures
        (r.0@, err_view(r.1)) == expand(n@, aliases_view(env@), depth as nat),
    decreases 33 - depth, n,
{
    if depth > 32 {
        return (n, Err(ExpandError::TooDeep));
    }
    let ghost ev = aliases_view(env@);
    match n {
        Node::Ref(name, args) => {
            let (args2, res) = expand_nodes(args, env, depth);
            if res.is_err() {
                return (Node::Ref(name, args2), res);
            }
            proof {
                lemma_alias_pos(ev, name@);
            }
            match find_alias(env, &name) {
                Some(i) => {
                    let np = env[i].1.params.len();
                    if args2.len() != np {
                        let en = clone_string(&name);
                        let na = args2.len();
                        return (Node::Ref(name, args2), Err(ExpandError::WrongArgCount(en, np, na)));
                    }
                    let local = bind_args(env, &env[i].1.params, &args2);
                    let body = clone_node(&env[i].1.body);
                    let (b2, r2) = expand_node(body, &local, depth + 1);
                    if r2.is_err() {
                        return (Node::Ref(name, args2), r2);
                    }
                    (b2, Ok(()))
                },
                None => {
                    let en = clone_string(&name);
                    (Node::Ref(name, args2), Err(ExpandError::Unresolved(en)))
                },
            }
        },
        Node::Chord(v) => {
            let (v2, res) = expand_nodes(v, env, depth);
            (Node::Chord(v2), res)
        },
        Node::Sequence(v) => {
            let (v2, res) = expand_nodes(v, env, depth);
            (Node::Sequence(v2), res)
        },
        Node::ShuffledSequence(v) => {
            let (v2, res) = expand_nodes(v, env, depth);
            (Node::ShuffledSequence(v2), res)
        },
        Node::Alternator(v) => {
            let (v2, res) = expand_nodes(v, env, depth);
            (Node::Alternator(v2), res)
        },
        Node::RandomChoice(w) => {
            let (w2, res) = expand_weighted_nodes(w, env, depth);
            (Node::RandomChoice(w2), res)
        },
        Node::Parallel(ls) => {
            let (ls2, res) = expand_layer_nodes(ls, env, depth);
            (Node::Parallel(ls2), res)
        },
        Node::Polymeter(ls) => {
            let (ls2, res) = expand_layer_nodes(ls, env, depth);
            (Node::Polymeter(ls2), res)
        },
        Node::Arrange(segs) => {
            let (segs2, res) = expand_segment_nodes(segs, env, depth);
            (Node::Arrange(segs2), res)
        },
        Node::WithScale(sc, c) => {
            let (c2, res) = expand_node(*c, env, depth);
            (Node::WithScale(sc, Box::new(c2)), res)
        },
        Node::Struct(a, b) => {
            let (a2, res) = expand_node(*a, env, depth);
            if res.is_err() {
                return (Node::Struct(Box::new(a2), b), res);
            }
            let (b2, res2) = expand_node(*b, env, depth);
            (Node::Struct(Box::new(a2), Box::new(b2)), res2)
        },
        Node::Modified(c, mods) => {
            let (c2, res) = expand_node(*c, env, depth);
            (Node::Modified(Box::new(c2), mods), res)
        },
        Node::Condition { scope, interval, offset, then_branch, else_branch } => {
            let (t2, res) = expand_node(*then_branch, env, depth);
            if res.is_err() {
                return (Node::Condition { scope, interval, offset, then_branch: Box::new(t2), else_branch }, res);
            }
            let (f2, res2) = expand_node(*else_branch, env, depth);
            (Node::Condition { scope, interval, offset, then_branch: Box::new(t2), else_branch: Box::new(f2) }, res2)
        },
        other => (other, Ok(())),
    }
}

fn expand_nodes(v: Vec<Node>, env: &Vec<(String, MacroDef)>, depth: usize) -> (r: (Vec<Node>, Result<(), ExpandError>))
    requires
        depth <= 32,
    ensures
        (nodes_view(r.0@), err_view(r.1)) == expand_list(nodes_view(v@), aliases_view(env@), depth as nat),
    decreases 33 - depth, v,
{
    let ghost whole = nodes_view(v@);
    let ghost ev = aliases_view(env@);
    let ghost orig = v@;
    let mut rest = v;
    let mut out: Vec<Node> = Vec::new();
    let total = rest.len();
    let mut k: usize = 0;
    proof {
        assert(whole.subrange(0, whole.len() as int) =~= whole);
        assert(nodes_view(out@) =~= Seq::<SNode>::empty());
    }
    while rest.len() > 0
        invariant
            depth <= 32,
            0 <= k <= orig.len(),
            orig.len() == total,
            rest@ == orig.subrange(k as int, orig.len() as int),
            whole == nodes_view(orig),
            ev == aliases_view(env@),
            orig == v@,
            expand_list(whole, ev, depth as nat) == ({
                let (t, e) = expand_list(whole.subrange(k as int, whole.len() as int), ev, depth as nat);
                (nodes_view(out@) + t, e)
            }),
        decreases rest.len(),
    {
        let x = rest.remove(0);
        proof {
            assert(x == orig[k as int]);
            assert(decreases_to!(v => v@));
            assert(decreases_to!(v@ => v@[k as int]));
            let sub = whole.subrange(k as int, whole.len() as int);
            assert(sub[0] == x@);
            assert(sub.subrange(1, sub.len() as int) =~= whole.subrange(k + 1, whole.len() as int));
            assert(rest@ =~= orig.subrange(k + 1, orig.len() as int));
        }
        let (h, res) = expand_node(x, env, depth);
        proof {
            lemma_nodes_push(out@, h);
        }
        out.push(h);
        if res.is_err() {
            proof {
                assert(nodes_view(rest@) =~= whole.subrange(k + 1, whole.len() as int));
                let sub = whole.subrange(k as int, whole.len() as int);
                assert(nodes_view(out@ + rest@) =~= nodes_view(out@) + nodes_view(rest@));
            }
            let mut tail = rest;
            out.append(&mut tail);
            return (out, res);
        }
        k += 1;
    }
    proof {
        assert(whole.subrange(k as int, whole.len() as int) =~= Seq::<SNode>::empty());
        assert(nodes_view(out@) + Seq::<SNode>::empty() =~= nodes_view(out@));
    }
    (out, Ok(()))
}

proof fn lemma_nodes_push(v: Seq<Node>, x: Node)
    ensures
        nodes_view(v.push(x)) == nodes_view(v).push(x@),
{
    crate::ast::lemma_nodes_view_push(v, x);
}


fn expand_weighted_nodes(w: Vec<(u32, Node)>, env: &Vec<(String, MacroDef)>, depth: usize) -> (r: (Vec<(u32, Node)>, Result<(), ExpandError>))
    requires
        depth <= 32,
    ensures
        (weighted_view(r.0@), err_view(r.1)) == expand_weighted(weighted_view(w@), aliases_view(env@), depth as nat),
    decreases 33 - depth, w,
{
    let ghost whole = weighted_view(w@);
    let ghost ev = aliases_view(env@);
    let ghost orig = w@;
    let mut rest = w;
    let mut out: Vec<(u32, Node)> = Vec::new();
    let total = rest.len();
    let mut k: usize = 0;
    proof {
        assert(whole.subrange(0, whole.len() as int) =~= whole);
        assert(weighted_view(out@) =~= Seq::<(u32, SNode)>::empty());
    }
    while rest.len() > 0
        invariant
            depth <= 32,
            0 <= k <= orig.len(),
            orig.len() == total,
            rest@ == orig.subrange(k as int, orig.len() as int),
            whole == weighted_view(orig),
            ev == aliases_view(env@),
            orig == w@,
            expand_weighted(whole, ev, depth as nat) == ({
                let (t, e) = expand_weighted(whole.subrange(k as int, whole.len() as int), ev, depth as nat);
                (weighted_view(out@) + t, e)
            }),
        decreases rest.len(),
    {
        let (wt, x) = rest.remove(0);
        proof {
            assert((wt, x) == orig[k as int]);
            assert(decreases_to!(w => w@));
            assert(decreases_to!(w@ => w@[k as int]));
            assert(decreases_to!(w@[k as int] => w@[k as int].1));
            let sub = whole.subrange(k as int, whole.len() as int);
            assert(sub[0] == (wt, x@));
            assert(sub.subrange(1, sub.len() as int) =~= whole.subrange(k + 1, whole.len() as int));
            assert(rest@ =~= orig.subrange(k + 1, orig.len() as int));
        }
        let (h, res) = expand_node(x, env, depth);
        proof {
            crate::ast::lemma_weighted_view_push(out@, (wt, h));
        }
        out.push((wt, h));
        if res.is_err() {
            proof {
                assert(weighted_view(rest@) =~= whole.subrange(k + 1, whole.len() as int));
                assert(weighted_view(out@ + rest@) =~= weighted_view(out@) + weighted_view(rest@));
            }
            let mut tail = rest;
            out.append(&mut tail);
            return (out, res);
        }
        k += 1;
    }
    proof {
        assert(whole.subrange(k as int, whole.len() as int) =~= Seq::<(u32, SNode)>::empty());
        assert(weighted_view(out@) + Seq::<(u32, SNode)>::empty() =~= weighted_view(out@));
    }
    (out, Ok(()))
}

fn expand_layer_nodes(ls: Vec<Vec<Node>>, env: &Vec<(String, MacroDef)>, depth: usize) -> (r: (Vec<Vec<Node>>, Result<(), ExpandError>))
    requires
        depth <= 32,
    ensures
        (layers_view(r.0@), err_view(r.1)) == expand_layers(layers_view(ls@), aliases_view(env@), depth as nat),
    decreases 33 - depth, ls,
{
    let ghost whole = layers_view(ls@);
    let ghost ev = aliases_view(env@);
    let ghost orig = ls@;
    let mut rest = ls;
    let mut out: Vec<Vec<Node>> = Vec::new();
    let total = rest.len();
    let mut k: usize = 0;
    proof {
        assert(whole.subrange(0, whole.len() as int) =~= whole);
        assert(layers_view(out@) =~= Seq::<Seq<SNode>>::empty());
    }
    while rest.len() > 0
        invariant
            depth <= 32,
            0 <= k <= orig.len(),
            orig.len() == total,
            rest@ == orig.subrange(k as int, orig.len() as int),
            whole == layers_view(orig),
            ev == aliases_view(env@),
            orig == ls@,
            expand_layers(whole, ev, depth as nat) == ({
                let (t, e) = expand_layers(whole.subrange(k as int, whole.len() as int), ev, depth as nat);
                (layers_view(out@) + t, e)
            }),
        decreases rest.len(),
    {
        let x = rest.remove(0);
        proof {
            assert(x == orig[k as int]);
            assert(decreases_to!(ls => ls@));
            assert(decreases_to!(ls@ => ls@[k as int]));
            let sub = whole.subrange(k as int, whole.len() as int);
            assert(sub[0] == nodes_view(x@));
            assert(sub.subrange(1, sub.len() as int) =~= whole.subrange(k + 1, whole.len() as int));
            assert(rest@ =~= orig.subrange(k + 1, orig.len() as int));
        }
        let (h, res) = expand_nodes(x, env, depth);
        proof {
            crate::ast::lemma_layers_view_push(out@, h);
        }
        out.push(h);
        if res.is_err() {
            proof {
                assert(layers_view(rest@) =~= whole.subrange(k + 1, whole.len() as int));
                assert(layers_view(out@ + rest@) =~= layers_view(out@) + layers_view(rest@));
            }
            let mut tail = rest;
            out.append(&mut tail);
            return (out, res);
        }
        k += 1;
    }
    proof {
        assert(whole.subrange(k as int, whole.len() as int) =~= Seq::<Seq<SNode>>::empty());
        assert(layers_view(out@) + Seq::<Seq<SNode>>::empty() =~= layers_view(out@));
    }
    (out, Ok(()))
}

fn expand_segment_nodes(segs: Vec<(usize, usize, Box<Node>)>, env: &Vec<(String, MacroDef)>, depth: usize) -> (r: (
    Vec<(usize, usize, Box<Node>)>,
    Result<(), ExpandError>,
))
    requires
        depth <= 32,
    ensures
        (segments_view(r.0@), err_view(r.1)) == expand_segments(segments_view(segs@), aliases_view(env@), depth as nat),
    decreases 33 - depth, segs,
{
    let ghost whole = segments_view(segs@);
    let ghost ev = aliases_view(env@);
    let ghost orig = segs@;
    let mut rest = segs;
    let mut out: Vec<(usize, usize, Box<Node>)> = Vec::new();
    let total = rest.len();
    let mut k: usize = 0;
    proof {
        assert(whole.subrange(0, whole.len() as int) =~= whole);
        assert(segments_view(out@) =~= Seq::<(usize, usize, SNode)>::empty());
    }
    while rest.len() > 0
        invariant
            depth <= 32,
            0 <= k <= orig.len(),
            orig.len() == total,
            rest@ == orig.subrange(k as int, orig.len() as int),
            whole == segments_view(orig),
            ev == aliases_view(env@),
            orig == segs@,
            expand_segments(whole, ev, depth as nat) == ({
                let (t, e) = expand_segments(whole.subrange(k as int, whole.len() as int), ev, depth as nat);
                (segments_view(out@) + t, e)
            }),
        decreases rest.len(),
    {
        let (a, b, x) = rest.remove(0);
        proof {
            assert((a, b, x) == orig[k as int]);
            assert(decreases_to!(segs => segs@));
            assert(decreases_to!(segs@ => segs@[k as int]));
            assert(decreases_to!(segs@[k as int] => segs@[k as int].2));
            let sub = whole.subrange(k as int, whole.len() as int);
            assert(sub[0] == (a, b, node_view_of(&x)));
            assert(sub.subrange(1, sub.len() as int) =~= whole.subrange(k + 1, whole.len() as int));
            assert(rest@ =~= orig.subrange(k + 1, orig.len() as int));
        }
        let (h, res) = expand_node(*x, env, depth);
        let g = (a, b, Box::new(h));
        proof {
            crate::ast::lemma_segments_view_push(out@, g);
        }
        out.push(g);
        if res.is_err() {
            proof {
                assert(segments_view(rest@) =~= whole.subrange(k + 1, whole.len() as int));
                assert(segments_view(out@ + rest@) =~= segments_view(out@) + segments_view(rest@));
            }
            let mut tail = rest;
            out.append(&mut tail);
            return (out, res);
        }
        k += 1;
    }
    proof {
        assert(whole.subrange(k as int, whole.len() as int) =~= Seq::<(usize, usize, SNode)>::empty());
        assert(segments_view(out@) + Seq::<(usize, usize, SNode)>::empty() =~= segments_view(out@));
    }
    (out, Ok(()))
}

pub open spec fn node_view_of(b: &Box<Node>) -> SNode {
    crate::ast::node_view(**b)
}

impl Node {
    /// Expands every macro reference in the node at nesting `depth`. On an
    /// error the node is left as far as expansion had got.
    pub fn expand_refs(&mut self, env: &Vec<(String, MacroDef)>, depth: usize) -> (r: Result<(), ExpandError>)
        ensures
            (final(self)@, err_view(r)) == expand(old(self)@, aliases_view(env@), depth as nat),
    {
        let mut taken = Node::Rest;
        std::mem::swap(&mut taken, self);
        let (n2, res) = expand_node(taken, env, depth);
        *self = n2;
        res
    }
}

/// The tracks after expanding each root in order against `env`, and the
/// first error; tracks after a failing one stay as they were.
pub open spec fn expand_tracks(ts: Seq<crate::ast::STrack>, env: Seq<(Seq<char>, SMacro)>) -> (Seq<crate::ast::STrack>, Option<SExpandError>)
    decreases ts.len(),
{
    if ts.len() == 0 {
        (ts, None)
    } else {
        let (root, e) = expand(ts[0].root_node, env, 0);
        let t0 = crate::ast::STrack { root_node: root, ..ts[0] };
        if e is Some {
            (seq![t0] + ts.drop_first(), e)
        } else {
            let (rest, e2) = expand_tracks(ts.drop_first(), env);
            (seq![t0] + rest, e2)
        }
    }
}

impl Program {
    /// Expands the macro references of every track against the program's
    /// macros.
    pub fn expand_all_refs(&mut self) -> (r: Result<(), ExpandError>)
        ensures
            (final(self)@.tracks, err_view(r)) == expand_tracks(old(self)@.tracks, old(self)@.aliases),
            final(self)@.aliases == old(self)@.aliases,
            final(self)@.includes == old(self)@.includes,
            final(self).bpm == old(self).bpm,
            final(self).signature == old(self).signature,
            final(self).quantize == old(self).quantize,
            final(self)@.scale == old(self)@.scale,
            final(self)@.scale_seq == old(self)@.scale_seq,
            final(self).global_silence == old(self).global_silence,
    {
        let env = clone_aliases(&self.aliases);
        let mut tracks: Vec<crate::ast::Track> = Vec::new();
        std::mem::swap(&mut tracks, &mut self.tracks);
        let ghost whole = tracks@.map_values(|t: crate::ast::Track| t@);
        let ghost ev = aliases_view(env@);
        let ghost orig = tracks@;
        let mut out: Vec<crate::ast::Track> = Vec::new();
        let total = tracks.len();
        let mut k: usize = 0;
        let mut result: Result<(), ExpandError> = Ok(());
        proof {
            assert(whole.skip(0) =~= whole);
            assert(out@.map_values(|t: crate::ast::Track| t@) =~= Seq::<crate::ast::STrack>::empty());
        }
        while tracks.len() > 0
            invariant_except_break
                result.is_ok(),
                tracks@ == orig.skip(k as int),
                expand_tracks(whole, ev) == ({
                    let (t, e) = expand_tracks(whole.skip(k as int), ev);
                    (out@.map_values(|t: crate::ast::Track| t@) + t, e)
                }),
            invariant
                0 <= k <= orig.len(),
                orig.len() == total,
                whole == orig.map_values(|t: crate::ast::Track| t@),
                ev == aliases_view(env@),
            ensures
                result.is_err() ==> expand_tracks(whole, ev) == (out@.map_values(|t: crate::ast::Track| t@) + tracks@.map_values(|t: crate::ast::Track| t@), err_view(result)),
                result.is_ok() ==> tracks@.len() == 0 && expand_tracks(whole, ev) == (out@.map_values(|t: crate::ast::Track| t@), None::<SExpandError>),
            decreases tracks.len(),
        {
            let mut t = tracks.remove(0);
            proof {
                assert(t == orig[k as int]);
                assert(whole.skip(k as int)[0] == t@);
                assert(whole.skip(k as int).drop_first() =~= whole.skip(k + 1));
                assert(tracks@ =~= orig.skip(k + 1));
            }
            let ghost before = t@;
            let ghost out_before = out@.map_values(|x: crate::ast::Track| x@);
            let res = t.root_node.expand_refs(&env, 0);
            proof {
                assert(t@ == (crate::ast::STrack { root_node: t.root_node@, ..before }));
                assert(out@.push(t).map_values(|x: crate::ast::Track| x@) =~= out@.map_values(|x: crate::ast::Track| x@).push(t@));
            }
            out.push(t);
            k += 1;
            if res.is_err() {
                proof {
                    assert(tracks@.map_values(|x: crate::ast::Track| x@) =~= whole.skip(k as int));
                    assert(out_before + (seq![t@] + whole.skip(k as int)) =~= out@.map_values(|x: crate::ast::Track| x@) + whole.skip(k as int));
                }
                result = res;
                break;
            }
            proof {
                let (rt, re) = expand_tracks(whole.skip(k as int), ev);
                assert(out_before + (seq![t@] + rt) =~= out@.map_values(|x: crate::ast::Track| x@) + rt);
            }
        }
        proof {
            if result.is_ok() {
                assert(tracks@.map_values(|x: crate::ast::Track| x@) =~= Seq::<crate::ast::STrack>::empty());
                assert(out@.map_values(|x: crate::ast::Track| x@) + Seq::<crate::ast::STrack>::empty() =~= out@.map_values(|x: crate::ast::Track| x@));
            }
        }
        let ghost outv = out@;
        let ghost restv = tracks@;
        out.append(&mut tracks);
        proof {
            assert((outv + restv).map_values(|x: crate::ast::Track| x@) =~= outv.map_values(|x: crate::ast::Track| x@) + restv.map_values(|x: crate::ast::Track| x@));
        }
        self.tracks = out;
        result
    }
}


/// No macro reference is left anywhere in the node.
pub open spec fn ref_free(n: SNode) -> bool
    decreases n,
{
    match n {
        SNode::Ref(..) => false,
        SNode::Chord(v) => forall|i: int| 0 <= i < v.len() ==> ref_free(#[trigger] v[i]),
        SNode::Sequence(v) => forall|i: int| 0 <= i < v.len() ==> ref_free(#[trigger] v[i]),
        SNode::ShuffledSequence(v) => forall|i: int| 0 <= i < v.len() ==> ref_free(#[trigger] v[i]),
        SNode::Alternator(v) => forall|i: int| 0 <= i < v.len() ==> ref_free(#[trigger] v[i]),
        SNode::RandomChoice(w) => forall|i: int| 0 <= i < w.len() ==> ref_free(#[trigger] w[i].1),
        SNode::Parallel(ls) => forall|i: int, j: int|
            0 <= i < ls.len() && 0 <= j < ls[i].len() ==> ref_free(#[trigger] ls[i][j]),
        SNode::Polymeter(ls) => forall|i: int, j: int|
            0 <= i < ls.len() && 0 <= j < ls[i].len() ==> ref_free(#[trigger] ls[i][j]),
        SNode::Arrange(segs) => forall|i: int| 0 <= i < segs.len() ==> ref_free(#[trigger] segs[i].2),
        SNode::WithScale(_, c) => ref_free(*c),
        SNode::Struct(a, b) => ref_free(*a) && ref_free(*b),
        SNode::Modified(c, _) => ref_free(*c),
        SNode::Condition { then_branch, else_branch, .. } => ref_free(*then_branch) && ref_free(*else_branch),
        _ => true,
    }
}

/// A successful expansion leaves no macro reference behind.
pub proof fn law_expansion_is_ref_free(n: SNode, env: Seq<(Seq<char>, SMacro)>, depth: nat)
    ensures
        expand(n, env, depth).1 is None ==> ref_free(expand(n, env, depth).0),
    decreases 33 - depth, n,
{
    if depth <= 32 {
        match n {
            SNode::Ref(name, args) => {
                let (args2, e) = expand_list(args, env, depth);
                if e is None {
                    if let Some(def) = lookup_alias(env, name) {
                        if args2.len() == def.params.len() {
                            let local = bind_params(env, def.params, args2);
                            law_expansion_is_ref_free(def.body, local, depth + 1);
                        }
                    }
                }
            },
            SNode::Chord(v) => lemma_list_ref_free(v, env, depth),
            SNode::Sequence(v) => lemma_list_ref_free(v, env, depth),
            SNode::ShuffledSequence(v) => lemma_list_ref_free(v, env, depth),
            SNode::Alternator(v) => lemma_list_ref_free(v, env, depth),
            SNode::RandomChoice(w) => lemma_weighted_ref_free(w, env, depth),
            SNode::Parallel(ls) => lemma_layers_ref_free(ls, env, depth),
            SNode::Polymeter(ls) => lemma_layers_ref_free(ls, env, depth),
            SNode::Arrange(segs) => lemma_segments_ref_free(segs, env, depth),
            SNode::WithScale(_, c) => law_expansion_is_ref_free(*c, env, depth),
            SNode::Struct(a, b) => {
                law_expansion_is_ref_free(*a, env, depth);
                law_expansion_is_ref_free(*b, env, depth);
            },
            SNode::Modified(c, _) => law_expansion_is_ref_free(*c, env, depth),
            SNode::Condition { then_branch, else_branch, .. } => {
                law_expansion_is_ref_free(*then_branch, env, depth);
                law_expansion_is_ref_free(*else_branch, env, depth);
            },
            _ => {},
        }
    }
}

proof fn lemma_list_ref_free(v: Seq<SNode>, env: Seq<(Seq<char>, SMacro)>, depth: nat)
    requires
        depth <= 32,
    ensures
        expand_list(v, env, depth).1 is None ==> forall|i: int|
            0 <= i < expand_list(v, env, depth).0.len() ==> ref_free(#[trigger] expand_list(v, env, depth).0[i]),
    decreases 33 - depth, v,
{
    if v.len() > 0 {
        assert(decreases_to!(v => v[0]));
        assert(decreases_to!(v => v.subrange(1, v.len() as int)));
        law_expansion_is_ref_free(v[0], env, depth);
        lemma_list_ref_free(v.subrange(1, v.len() as int), env, depth);
        let (h, e) = expand(v[0], env, depth);
        if e is None {
            let (t, e2) = expand_list(v.subrange(1, v.len() as int), env, depth);
            let r = seq![h] + t;
            assert forall|i: int| 0 <= i < r.len() && e2 is None implies ref_free(#[trigger] r[i]) by {
                if i == 0 {
                    assert(r[i] == h);
                } else {
                    assert(r[i] == t[i - 1]);
                }
            }
        }
    }
}

proof fn lemma_weighted_ref_free(w: Seq<(u32, SNode)>, env: Seq<(Seq<char>, SMacro)>, depth: nat)
    requires
        depth <= 32,
    ensures
        expand_weighted(w, env, depth).1 is None ==> forall|i: int|
            0 <= i < expand_weighted(w, env, depth).0.len() ==> ref_free(#[trigger] expand_weighted(w, env, depth).0[i].1),
    decreases 33 - depth, w,
{
    if w.len() > 0 {
        assert(decreases_to!(w => w[0]));
        assert(decreases_to!(w[0] => w[0].1));
        assert(decreases_to!(w => w.subrange(1, w.len() as int)));
        law_expansion_is_ref_free(w[0].1, env, depth);
        lemma_weighted_ref_free(w.subrange(1, w.len() as int), env, depth);
        let (h, e) = expand(w[0].1, env, depth);
        if e is None {
            let (t, e2) = expand_weighted(w.subrange(1, w.len() as int), env, depth);
            let r = seq![(w[0].0, h)] + t;
            assert forall|i: int| 0 <= i < r.len() && e2 is None implies ref_free(#[trigger] r[i].1) by {
                if i == 0 {
                    assert(r[i].1 == h);
                } else {
                    assert(r[i] == t[i - 1]);
                }
            }
        }
    }
}

proof fn lemma_layers_ref_free(ls: Seq<Seq<SNode>>, env: Seq<(Seq<char>, SMacro)>, depth: nat)
    requires
        depth <= 32,
    ensures
        expand_layers(ls, env, depth).1 is None ==> forall|i: int, j: int|
            0 <= i < expand_layers(ls, env, depth).0.len() && 0 <= j < expand_layers(ls, env, depth).0[i].len()
                ==> ref_free(#[trigger] expand_layers(ls, env, depth).0[i][j]),
    decreases 33 - depth, ls,
{
    if ls.len() > 0 {
        assert(decreases_to!(ls => ls[0]));
        assert(decreases_to!(ls => ls.subrange(1, ls.len() as int)));
        lemma_list_ref_free(ls[0], env, depth);
        lemma_layers_ref_free(ls.subrange(1, ls.len() as int), env, depth);
        let (h, e) = expand_list(ls[0], env, depth);
        if e is None {
            let (t, e2) = expand_layers(ls.subrange(1, ls.len() as int), env, depth);
            let r = seq![h] + t;
            assert forall|i: int, j: int| 0 <= i < r.len() && 0 <= j < r[i].len() && e2 is None implies ref_free(
                #[trigger] r[i][j],
            ) by {
                if i == 0 {
                    assert(r[i] == h);
                } else {
                    assert(r[i] == t[i - 1]);
                }
            }
        }
    }
}

proof fn lemma_segments_ref_free(segs: Seq<(usize, usize, SNode)>, env: Seq<(Seq<char>, SMacro)>, depth: nat)
    requires
        depth <= 32,
    ensures
        expand_segments(segs, env, depth).1 is None ==> forall|i: int|
            0 <= i < expand_segments(segs, env, depth).0.len() ==> ref_free(#[trigger] expand_segments(segs, env, depth).0[i].2),
    decreases 33 - depth, segs,
{
    if segs.len() > 0 {
        assert(decreases_to!(segs => segs[0]));
        assert(decreases_to!(segs[0] => segs[0].2));
        assert(decreases_to!(segs => segs.subrange(1, segs.len() as int)));
        law_expansion_is_ref_free(segs[0].2, env, depth);
        lemma_segments_ref_free(segs.subrange(1, segs.len() as int), env, depth);
        let (h, e) = expand(segs[0].2, env, depth);
        if e is None {
            let (t, e2) = expand_segments(segs.subrange(1, segs.len() as int), env, depth);
            let r = seq![(segs[0].0, segs[0].1, h)] + t;
            assert forall|i: int| 0 <= i < r.len() && e2 is None implies ref_free(#[trigger] r[i].2) by {
                if i == 0 {
                    assert(r[i].2 == h);
                } else {
                    assert(r[i] == t[i - 1]);
                }
            }
        }
    }
}

/// Expanding a node that holds no macro reference changes nothing and
/// fails nowhere (within the nesting limit); so expanding an expanded
/// pattern again leaves it as it is.
pub proof fn law_expand_ref_free_unchanged(n: SNode, env: Seq<(Seq<char>, SMacro)>, depth: nat)
    requires
        ref_free(n),
        depth <= 32,
    ensures
        expand(n, env, depth) == (n, None::<SExpandError>),
    decreases n,
{
    match n {
        SNode::Chord(v) => lemma_list_unchanged(v, env, depth),
        SNode::Sequence(v) => lemma_list_unchanged(v, env, depth),
        SNode::ShuffledSequence(v) => lemma_list_unchanged(v, env, depth),
        SNode::Alternator(v) => lemma_list_unchanged(v, env, depth),
        SNode::RandomChoice(w) => lemma_weighted_unchanged(w, env, depth),
        SNode::Parallel(ls) => lemma_layers_unchanged(ls, env, depth),
        SNode::Polymeter(ls) => lemma_layers_unchanged(ls, env, depth),
        SNode::Arrange(segs) => lemma_segments_unchanged(segs, env, depth),
        SNode::WithScale(_, c) => law_expand_ref_free_unchanged(*c, env, depth),
        SNode::Struct(a, b) => {
            law_expand_ref_free_unchanged(*a, env, depth);
            law_expand_ref_free_unchanged(*b, env, depth);
        },
        SNode::Modified(c, _) => law_expand_ref_free_unchanged(*c, env, depth),
        SNode::Condition { then_branch, else_branch, .. } => {
            law_expand_ref_free_unchanged(*then_branch, env, depth);
            law_expand_ref_free_unchanged(*else_branch, env, depth);
        },
        _ => {},
    }
}

proof fn lemma_list_unchanged(v: Seq<SNode>, env: Seq<(Seq<char>, SMacro)>, depth: nat)
    requires
        forall|i: int| 0 <= i < v.len() ==> ref_free(#[trigger] v[i]),
        depth <= 32,
    ensures
        expand_list(v, env, depth) == (v, None::<SExpandError>),
    decreases v,
{
    if v.len() > 0 {
        assert(decreases_to!(v => v[0]));
        assert(decreases_to!(v => v.subrange(1, v.len() as int)));
        let rest = v.subrange(1, v.len() as int);
        assert(ref_free(v[0]));
        law_expand_ref_free_unchanged(v[0], env, depth);
        assert forall|i: int| 0 <= i < rest.len() implies ref_free(#[trigger] rest[i]) by {
            assert(rest[i] == v[i + 1]);
        }
        lemma_list_unchanged(rest, env, depth);
        assert(seq![v[0]] + rest =~= v);
    }
}

proof fn lemma_weighted_unchanged(w: Seq<(u32, SNode)>, env: Seq<(Seq<char>, SMacro)>, depth: nat)
    requires
        forall|i: int| 0 <= i < w.len() ==> ref_free(#[trigger] w[i].1),
        depth <= 32,
    ensures
        expand_weighted(w, env, depth) == (w, None::<SExpandError>),
    decreases w,
{
    if w.len() > 0 {
        assert(decreases_to!(w => w[0]));
        assert(decreases_to!(w[0] => w[0].1));
        assert(decreases_to!(w => w.subrange(1, w.len() as int)));
        let rest = w.subrange(1, w.len() as int);
        assert(ref_free(w[0].1));
        law_expand_ref_free_unchanged(w[0].1, env, depth);
        assert forall|i: int| 0 <= i < rest.len() implies ref_free(#[trigger] rest[i].1) by {
            assert(rest[i] == w[i + 1]);
        }
        lemma_weighted_unchanged(rest, env, depth);
        assert(seq![(w[0].0, w[0].1)] + rest =~= w);
    }
}

proof fn lemma_layers_unchanged(ls: Seq<Seq<SNode>>, env: Seq<(Seq<char>, SMacro)>, depth: nat)
    requires
        forall|i: int, j: int| 0 <= i < ls.len() && 0 <= j < ls[i].len() ==> ref_free(#[trigger] ls[i][j]),
        depth <= 32,
    ensures
        expand_layers(ls, env, depth) == (ls, None::<SExpandError>),
    decreases ls,
{
    if ls.len() > 0 {
        assert(decreases_to!(ls => ls[0]));
        assert(decreases_to!(ls => ls.subrange(1, ls.len() as int)));
        let rest = ls.subrange(1, ls.len() as int);
        assert forall|j: int| 0 <= j < ls[0].len() implies ref_free(#[trigger] ls[0][j]) by {}
        lemma_list_unchanged(ls[0], env, depth);
        assert forall|i: int, j: int| 0 <= i < rest.len() && 0 <= j < rest[i].len() implies ref_free(#[trigger] rest[i][j]) by {
            assert(rest[i] == ls[i + 1]);
        }
        lemma_layers_unchanged(rest, env, depth);
        assert(seq![ls[0]] + rest =~= ls);
    }
}

proof fn lemma_segments_unchanged(segs: Seq<(usize, usize, SNode)>, env: Seq<(Seq<char>, SMacro)>, depth: nat)
    requires
        forall|i: int| 0 <= i < segs.len() ==> ref_free(#[trigger] segs[i].2),
        depth <= 32,
    ensures
        expand_segments(segs, env, depth) == (segs, None::<SExpandError>),
    decreases segs,
{
    if segs.len() > 0 {
        assert(decreases_to!(segs => segs[0]));
        assert(decreases_to!(segs[0] => segs[0].2));
        assert(decreases_to!(segs => segs.subrange(1, segs.len() as int)));
        let rest = segs.subrange(1, segs.len() as int);
        assert(ref_free(segs[0].2));
        law_expand_ref_free_unchanged(segs[0].2, env, depth);
        assert forall|i: int| 0 <= i < rest.len() implies ref_free(#[trigger] rest[i].2) by {
            assert(rest[i] == segs[i + 1]);
        }
        lemma_segments_unchanged(rest, env, depth);
        assert(seq![(segs[0].0, segs[0].1, segs[0].2)] + rest =~= segs);
    }
}

/// Expanding tracks whose patterns hold no macro reference leaves them as
/// they are.
pub proof fn law_expand_tracks_ref_free_unchanged(ts: Seq<crate::ast::STrack>, env: Seq<(Seq<char>, SMacro)>)
    requires
        forall|i: int| 0 <= i < ts.len() ==> ref_free(#[trigger] ts[i].root_node),
    ensures
        expand_tracks(ts, env) == (ts, None::<SExpandError>),
    decreases ts.len(),
{
    if ts.len() > 0 {
        assert(ref_free(ts[0].root_node));
        law_expand_ref_free_unchanged(ts[0].root_node, env, 0);
        let rest = ts.drop_first();
        assert forall|i: int| 0 <= i < rest.len() implies ref_free(#[trigger] rest[i].root_node) by {
            assert(rest[i] == ts[i + 1]);
        }
        law_expand_tracks_ref_free_unchanged(rest, env);
        assert(seq![ts[0]] + rest =~= ts);
    }
}

} // verus!

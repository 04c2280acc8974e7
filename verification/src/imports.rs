//! MIDI imports inside a pattern: which ones a program holds, in the order
//! in which they are resolved, and the pattern with each replaced by the
//! node that its file turned into.
use vstd::prelude::*;
use crate::ast::{
    aliases_view, clone_import, layers_view, nodes_view, segments_view, weighted_view, MacroDef,
    MidiImportOptions, Node, Program, SImport, SMacro, SNode, SProgram, STrack, Track,
};

verus! {

// ---------------------------------------------------------------------
// Which imports a pattern holds
// ---------------------------------------------------------------------

/// The imports of a node in the order in which they are resolved: children
/// from first to last, the content (not the mask) of a structure, and the
/// arguments of a macro reference.
pub open spec fn imports_of(n: SNode) -> Seq<SImport>
    decreases n,
{
    match n {
        SNode::MidiImport(o) => seq![o],
        SNode::Chord(v) => imports_list(v),
        SNode::Sequence(v) => imports_list(v),
        SNode::ShuffledSequence(v) => imports_list(v),
        SNode::Alternator(v) => imports_list(v),
        SNode::Ref(_, args) => imports_list(args),
        SNode::RandomChoice(w) => imports_weighted(w),
        SNode::Parallel(ls) => imports_layers(ls),
        SNode::Polymeter(ls) => imports_layers(ls),
        SNode::Arrange(segs) => imports_segments(segs),
        SNode::WithScale(_, c) => imports_of(*c),
        SNode::Struct(_, b) => imports_of(*b),
        SNode::Modified(c, _) => imports_of(*c),
        SNode::Condition { then_branch, else_branch, .. } => imports_of(*then_branch) + imports_of(*else_branch),
        _ => Seq::empty(),
    }
}

/// The imports of nodes, one node after the other.
pub open spec fn imports_list(v: Seq<SNode>) -> Seq<SImport>
    decreases v,
{
    if v.len() == 0 {
        Seq::empty()
    } else {
        proof {
            assert(decreases_to!(v => v[0]));
            assert(decreases_to!(v => v.subrange(1, v.len() as int)));
        }
        imports_of(v[0]) + imports_list(v.subrange(1, v.len() as int))
    }
}

/// The imports of weighted choices.
pub open spec fn imports_weighted(w: Seq<(u32, SNode)>) -> Seq<SImport>
    decreases w,
{
    if w.len() == 0 {
        Seq::empty()
    } else {
        proof {
            assert(decreases_to!(w => w[0]));
            assert(decreases_to!(w[0] => w[0].1));
            assert(decreases_to!(w => w.subrange(1, w.len() as int)));
        }
        imports_of(w[0].1) + imports_weighted(w.subrange(1, w.len() as int))
    }
}

/// The imports of layers, layer after layer.
pub open spec fn imports_layers(ls: Seq<Seq<SNode>>) -> Seq<SImport>
    decreases ls,
{
    if ls.len() == 0 {
        Seq::empty()
    } else {
        proof {
            assert(decreases_to!(ls => ls[0]));
            assert(decreases_to!(ls => ls.subrange(1, ls.len() as int)));
        }
        imports_list(ls[0]) + imports_layers(ls.subrange(1, ls.len() as int))
    }
}

/// The imports of arrangement segments.
pub open spec fn imports_segments(segs: Seq<(usize, usize, SNode)>) -> Seq<SImport>
    decreases segs,
{
    if segs.len() == 0 {
        Seq::empty()
    } else {
        proof {
            assert(decreases_to!(segs => segs[0]));
            assert(decreases_to!(segs[0] => segs[0].2));
            assert(decreases_to!(segs => segs.subrange(1, segs.len() as int)));
        }
        imports_of(segs[0].2) + imports_segments(segs.subrange(1, segs.len() as int))
    }
}

/// The views of import options.
pub open spec fn options_view(v: Seq<MidiImportOptions>) -> Seq<SImport> {
    v.map_values(|o: MidiImportOptions| o@)
}

// ---------------------------------------------------------------------
// Replacing imports
// ---------------------------------------------------------------------

/// The node with its imports replaced, in order, by the first nodes of
/// `reps`, and what is left of `reps`. An import for which no node is left
/// stays as it is.
pub open spec fn fill(n: SNode, reps: Seq<SNode>) -> (SNode, Seq<SNode>)
    decreases n,
{
    match n {
        SNode::MidiImport(o) => if reps.len() > 0 {
            (reps[0], reps.drop_first())
        } else {
            (n, reps)
        },
        SNode::Chord(v) => {
            let (v2, r) = fill_list(v, reps);
            (SNode::Chord(v2), r)
        },
        SNode::Sequence(v) => {
            let (v2, r) = fill_list(v, reps);
            (SNode::Sequence(v2), r)
        },
        SNode::ShuffledSequence(v) => {
            let (v2, r) = fill_list(v, reps);
            (SNode::ShuffledSequence(v2), r)
        },
        SNode::Alternator(v) => {
            let (v2, r) = fill_list(v, reps);
            (SNode::Alternator(v2), r)
        },
        SNode::Ref(name, args) => {
            let (a2, r) = fill_list(args, reps);
            (SNode::Ref(name, a2), r)
        },
        SNode::RandomChoice(w) => {
            let (w2, r) = fill_weighted(w, reps);
            (SNode::RandomChoice(w2), r)
        },
        SNode::Parallel(ls) => {
            let (ls2, r) = fill_layers(ls, reps);
            (SNode::Parallel(ls2), r)
        },
        SNode::Polymeter(ls) => {
            let (ls2, r) = fill_layers(ls, reps);
            (SNode::Polymeter(ls2), r)
        },
        SNode::Arrange(segs) => {
            let (s2, r) = fill_segments(segs, reps);
            (SNode::Arrange(s2), r)
        },
        SNode::WithScale(sc, c) => {
            let (c2, r) = fill(*c, reps);
            (SNode::WithScale(sc, Box::new(c2)), r)
        },
        SNode::Struct(a, b) => {
            let (b2, r) = fill(*b, reps);
            (SNode::Struct(a, Box::new(b2)), r)
        },
        SNode::Modified(c, mods) => {
            let (c2, r) = fill(*c, reps);
            (SNode::Modified(Box::new(c2), mods), r)
        },
        SNode::Condition { scope, interval, offset, then_branch, else_branch } => {
            let (t2, r1) = fill(*then_branch, reps);
            let (f2, r2) = fill(*else_branch, r1);
            (SNode::Condition { scope, interval, offset, then_branch: Box::new(t2), else_branch: Box::new(f2) }, r2)
        },
        _ => (n, reps),
    }
}

/// The same over nodes, one after the other.
pub open spec fn fill_list(v: Seq<SNode>, reps: Seq<SNode>) -> (Seq<SNode>, Seq<SNode>)
    decreases v,
{
    if v.len() == 0 {
        (v, reps)
    } else {
        proof {
            assert(decreases_to!(v => v[0]));
            assert(decreases_to!(v => v.subrange(1, v.len() as int)));
        }
        let (h, r1) = fill(v[0], reps);
        let (t, r2) = fill_list(v.subrange(1, v.len() as int), r1);
        (seq![h] + t, r2)
    }
}

/// The same over weighted choices.
pub open spec fn fill_weighted(w: Seq<(u32, SNode)>, reps: Seq<SNode>) -> (Seq<(u32, SNode)>, Seq<SNode>)
    decreases w,
{
    if w.len() == 0 {
        (w, reps)
    } else {
        proof {
            assert(decreases_to!(w => w[0]));
            assert(decreases_to!(w[0] => w[0].1));
            assert(decreases_to!(w => w.subrange(1, w.len() as int)));
        }
        let (h, r1) = fill(w[0].1, reps);
        let (t, r2) = fill_weighted(w.subrange(1, w.len() as int), r1);
        (seq![(w[0].0, h)] + t, r2)
    }
}

/// The same over layers.
pub open spec fn fill_layers(ls: Seq<Seq<SNode>>, reps: Seq<SNode>) -> (Seq<Seq<SNode>>, Seq<SNode>)
    decreases ls,
{
    if ls.len() == 0 {
        (ls, reps)
    } else {
        proof {
            assert(decreases_to!(ls => ls[0]));
            assert(decreases_to!(ls => ls.subrange(1, ls.len() as int)));
        }
        let (h, r1) = fill_list(ls[0], reps);
        let (t, r2) = fill_layers(ls.subrange(1, ls.len() as int), r1);
        (seq![h] + t, r2)
    }
}

/// The same over arrangement segments.
pub open spec fn fill_segments(segs: Seq<(usize, usize, SNode)>, reps: Seq<SNode>) -> (Seq<(usize, usize, SNode)>, Seq<SNode>)
    decreases segs,
{
    if segs.len() == 0 {
        (segs, reps)
    } else {
        proof {
            assert(decreases_to!(segs => segs[0]));
            assert(decreases_to!(segs[0] => segs[0].2));
            assert(decreases_to!(segs => segs.subrange(1, segs.len() as int)));
        }
        let (h, r1) = fill(segs[0].2, reps);
        let (t, r2) = fill_segments(segs.subrange(1, segs.len() as int), r1);
        (seq![(segs[0].0, segs[0].1, h)] + t, r2)
    }
}

// ---------------------------------------------------------------------
// Collecting imports
// ---------------------------------------------------------------------

proof fn lemma_options_push(v: Seq<MidiImportOptions>, o: MidiImportOptions)
    ensures
        options_view(v.push(o)) == options_view(v) + seq![o@],
{
    assert(options_view(v.push(o)) =~= options_view(v) + seq![o@]);
}

/// Appends the imports of a node to `out`, in the order in which they are
/// resolved.
pub fn collect_imports(n: &Node, out: &mut Vec<MidiImportOptions>)
    ensures
        options_view(final(out)@) == options_view(old(out)@) + imports_of(n@),
    decreases n,
{
    let ghost start = options_view(out@);
    match n {
        Node::MidiImport(o) => {
            let c = clone_import(o);
            proof {
                lemma_options_push(out@, c);
            }
            out.push(c);
        },
        Node::Chord(v) => collect_list(v, out),
        Node::Sequence(v) => collect_list(v, out),
        Node::ShuffledSequence(v) => collect_list(v, out),
        Node::Alternator(v) => collect_list(v, out),
        Node::Ref(_, args) => collect_list(args, out),
        Node::RandomChoice(w) => collect_weighted(w, out),
        Node::Parallel(ls) => collect_layers(ls, out),
        Node::Polymeter(ls) => collect_layers(ls, out),
        Node::Arrange(segs) => collect_segments(segs, out),
        Node::WithScale(_, c) => collect_imports(c, out),
        Node::Struct(_, b) => collect_imports(b, out),
        Node::Modified(c, _) => collect_imports(c, out),
        Node::Condition { then_branch, else_branch, .. } => {
            collect_imports(then_branch, out);
            let ghost mid = options_view(out@);
            collect_imports(else_branch, out);
            assert(options_view(out@) =~= start + imports_of(n@));
        },
        _ => {
            assert(options_view(out@) =~= start + imports_of(n@));
        },
    }
}

fn collect_list(v: &Vec<Node>, out: &mut Vec<MidiImportOptions>)
    ensures
        options_view(final(out)@) == options_view(old(out)@) + imports_list(nodes_view(v@)),
    decreases v,
{
    let ghost whole = nodes_view(v@);
    let ghost start = options_view(out@);
    let mut i: usize = 0;
    assert(whole.subrange(0, whole.len() as int) =~= whole);
    assert(start =~= options_view(out@) + Seq::<SImport>::empty());
    while i < v.len()
        invariant
            0 <= i <= v@.len(),
            whole == nodes_view(v@),
            start + imports_list(whole) == options_view(out@) + imports_list(whole.subrange(i as int, whole.len() as int)),
        decreases v.len() - i,
    {
        proof {
            assert(decreases_to!(v => v@));
            assert(decreases_to!(v@ => v@[i as int]));
            let rest = whole.subrange(i as int, whole.len() as int);
            assert(rest[0] == v@[i as int]@);
            assert(rest.subrange(1, rest.len() as int) =~= whole.subrange(i + 1, whole.len() as int));
        }
        let ghost before = options_view(out@);
        collect_imports(&v[i], out);
        proof {
            let rest = whole.subrange(i as int, whole.len() as int);
            assert(imports_list(rest) == imports_of(rest[0]) + imports_list(whole.subrange(i + 1, whole.len() as int)));
            assert(before + imports_list(rest) =~= options_view(out@) + imports_list(whole.subrange(i + 1, whole.len() as int)));
        }
        i += 1;
    }
    assert(whole.subrange(i as int, whole.len() as int) =~= Seq::<SNode>::empty());
    assert(options_view(out@) + Seq::<SImport>::empty() =~= options_view(out@));
    assert(start + imports_list(whole) =~= options_view(out@));
}

fn collect_weighted(w: &Vec<(u32, Node)>, out: &mut Vec<MidiImportOptions>)
    ensures
        options_view(final(out)@) == options_view(old(out)@) + imports_weighted(weighted_view(w@)),
    decreases w,
{
    let ghost whole = weighted_view(w@);
    let ghost start = options_view(out@);
    let mut i: usize = 0;
    assert(whole.subrange(0, whole.len() as int) =~= whole);
    assert(start =~= options_view(out@) + Seq::<SImport>::empty());
    while i < w.len()
        invariant
            0 <= i <= w@.len(),
            whole == weighted_view(w@),
            start + imports_weighted(whole) == options_view(out@) + imports_weighted(whole.subrange(i as int, whole.len() as int)),
        decreases w.len() - i,
    {
        proof {
            assert(decreases_to!(w => w@));
            assert(decreases_to!(w@ => w@[i as int]));
            assert(decreases_to!(w@[i as int] => w@[i as int].1));
            let rest = whole.subrange(i as int, whole.len() as int);
            assert(rest[0].1 == w@[i as int].1@);
            assert(rest.subrange(1, rest.len() as int) =~= whole.subrange(i + 1, whole.len() as int));
        }
        let ghost before = options_view(out@);
        collect_imports(&w[i].1, out);
        proof {
            let rest = whole.subrange(i as int, whole.len() as int);
            assert(imports_weighted(rest) == imports_of(rest[0].1) + imports_weighted(whole.subrange(i + 1, whole.len() as int)));
            assert(before + imports_weighted(rest) =~= options_view(out@) + imports_weighted(whole.subrange(i + 1, whole.len() as int)));
        }
        i += 1;
    }
    assert(whole.subrange(i as int, whole.len() as int) =~= Seq::<(u32, SNode)>::empty());
    assert(options_view(out@) + Seq::<SImport>::empty() =~= options_view(out@));
    assert(start + imports_weighted(whole) =~= options_view(out@));
}

fn collect_layers(ls: &Vec<Vec<Node>>, out: &mut Vec<MidiImportOptions>)
    ensures
        options_view(final(out)@) == options_view(old(out)@) + imports_layers(layers_view(ls@)),
    decreases ls,
{
    let ghost whole = layers_view(ls@);
    let ghost start = options_view(out@);
    let mut i: usize = 0;
    assert(whole.subrange(0, whole.len() as int) =~= whole);
    assert(start =~= options_view(out@) + Seq::<SImport>::empty());
    while i < ls.len()
        invariant
            0 <= i <= ls@.len(),
            whole == layers_view(ls@),
            start + imports_layers(whole) == options_view(out@) + imports_layers(whole.subrange(i as int, whole.len() as int)),
        decreases ls.len() - i,
    {
        proof {
            assert(decreases_to!(ls => ls@));
            assert(decreases_to!(ls@ => ls@[i as int]));
            let rest = whole.subrange(i as int, whole.len() as int);
            assert(rest[0] == nodes_view(ls@[i as int]@));
            assert(rest.subrange(1, rest.len() as int) =~= whole.subrange(i + 1, whole.len() as int));
        }
        let ghost before = options_view(out@);
        collect_list(&ls[i], out);
        proof {
            let rest = whole.subrange(i as int, whole.len() as int);
            assert(imports_layers(rest) == imports_list(rest[0]) + imports_layers(whole.subrange(i + 1, whole.len() as int)));
            assert(before + imports_layers(rest) =~= options_view(out@) + imports_layers(whole.subrange(i + 1, whole.len() as int)));
        }
        i += 1;
    }
    assert(whole.subrange(i as int, whole.len() as int) =~= Seq::<Seq<SNode>>::empty());
    assert(options_view(out@) + Seq::<SImport>::empty() =~= options_view(out@));
    assert(start + imports_layers(whole) =~= options_view(out@));
}

fn collect_segments(segs: &Vec<(usize, usize, Box<Node>)>, out: &mut Vec<MidiImportOptions>)
    ensures
        options_view(final(out)@) == options_view(old(out)@) + imports_segments(segments_view(segs@)),
    decreases segs,
{
    let ghost whole = segments_view(segs@);
    let ghost start = options_view(out@);
    let mut i: usize = 0;
    assert(whole.subrange(0, whole.len() as int) =~= whole);
    assert(start =~= options_view(out@) + Seq::<SImport>::empty());
    while i < segs.len()
        invariant
            0 <= i <= segs@.len(),
            whole == segments_view(segs@),
            start + imports_segments(whole) == options_view(out@) + imports_segments(whole.subrange(i as int, whole.len() as int)),
        decreases segs.len() - i,
    {
        proof {
            assert(decreases_to!(segs => segs@));
            assert(decreases_to!(segs@ => segs@[i as int]));
            assert(decreases_to!(segs@[i as int] => segs@[i as int].2));
            let rest = whole.subrange(i as int, whole.len() as int);
            assert(rest[0].2 == crate::ast::node_view(*segs@[i as int].2));
            assert(rest.subrange(1, rest.len() as int) =~= whole.subrange(i + 1, whole.len() as int));
        }
        let ghost before = options_view(out@);
        collect_imports(&segs[i].2, out);
        proof {
            let rest = whole.subrange(i as int, whole.len() as int);
            assert(imports_segments(rest) == imports_of(rest[0].2) + imports_segments(whole.subrange(i + 1, whole.len() as int)));
            assert(before + imports_segments(rest) =~= options_view(out@) + imports_segments(whole.subrange(i + 1, whole.len() as int)));
        }
        i += 1;
    }
    assert(whole.subrange(i as int, whole.len() as int) =~= Seq::<(usize, usize, SNode)>::empty());
    assert(options_view(out@) + Seq::<SImport>::empty() =~= options_view(out@));
    assert(start + imports_segments(whole) =~= options_view(out@));
}

// ---------------------------------------------------------------------
// Replacing imports
// ---------------------------------------------------------------------

proof fn lemma_nodes_remove_first(v: Seq<Node>)
    requires
        v.len() > 0,
    ensures
        nodes_view(v.remove(0)) == nodes_view(v).drop_first(),
        nodes_view(v)[0] == v[0]@,
{
    assert(nodes_view(v.remove(0)) =~= nodes_view(v).drop_first());
}

/// Replaces the imports of a node, in the order in which they are
/// resolved, by the nodes at the front of `reps`, which it takes out.
pub fn fill_imports(n: Node, reps: &mut Vec<Node>) -> (r: Node)
    ensures
        (r@, nodes_view(final(reps)@)) == fill(n@, nodes_view(old(reps)@)),
    decreases n,
{
    match n {
        Node::MidiImport(o) => {
            if reps.len() > 0 {
                proof {
                    lemma_nodes_remove_first(reps@);
                }
                reps.remove(0)
            } else {
                Node::MidiImport(o)
            }
        },
        Node::Chord(v) => Node::Chord(fill_list_exec(v, reps)),
        Node::Sequence(v) => Node::Sequence(fill_list_exec(v, reps)),
        Node::ShuffledSequence(v) => Node::ShuffledSequence(fill_list_exec(v, reps)),
        Node::Alternator(v) => Node::Alternator(fill_list_exec(v, reps)),
        Node::Ref(name, args) => {
            let a2 = fill_list_exec(args, reps);
            Node::Ref(name, a2)
        },
        Node::RandomChoice(w) => Node::RandomChoice(fill_weighted_exec(w, reps)),
        Node::Parallel(ls) => Node::Parallel(fill_layers_exec(ls, reps)),
        Node::Polymeter(ls) => Node::Polymeter(fill_layers_exec(ls, reps)),
        Node::Arrange(segs) => Node::Arrange(fill_segments_exec(segs, reps)),
        Node::WithScale(sc, c) => {
            let c2 = fill_imports(*c, reps);
            Node::WithScale(sc, Box::new(c2))
        },
        Node::Struct(a, b) => {
            let b2 = fill_imports(*b, reps);
            Node::Struct(a, Box::new(b2))
        },
        Node::Modified(c, mods) => {
            let c2 = fill_imports(*c, reps);
            Node::Modified(Box::new(c2), mods)
        },
        Node::Condition { scope, interval, offset, then_branch, else_branch } => {
            let t2 = fill_imports(*then_branch, reps);
            let f2 = fill_imports(*else_branch, reps);
            Node::Condition { scope, interval, offset, then_branch: Box::new(t2), else_branch: Box::new(f2) }
        },
        other => other,
    }
}

fn fill_list_exec(v: Vec<Node>, reps: &mut Vec<Node>) -> (r: Vec<Node>)
    ensures
        (nodes_view(r@), nodes_view(final(reps)@)) == fill_list(nodes_view(v@), nodes_view(old(reps)@)),
    decreases v,
{
    let ghost whole = nodes_view(v@);
    let ghost r0 = nodes_view(reps@);
    let ghost orig = v@;
    let mut rest = v;
    let mut out: Vec<Node> = Vec::new();
    let total = rest.len();
    let mut k: usize = 0;
    proof {
        assert(whole.subrange(0, whole.len() as int) =~= whole);
        assert(nodes_view(out@) =~= Seq::<SNode>::empty());
        assert(nodes_view(out@) + whole =~= whole);
    }
    while rest.len() > 0
        invariant
            0 <= k <= orig.len(),
            orig.len() == total,
            rest@ == orig.subrange(k as int, orig.len() as int),
            whole == nodes_view(orig),
            orig == v@,
            fill_list(whole, r0) == ({
                let (t, r) = fill_list(whole.subrange(k as int, whole.len() as int), nodes_view(reps@));
                (nodes_view(out@) + t, r)
            }),
        decreases rest.len(),
    {
        let x = rest.remove(0);
        proof {
            assert(x == orig[k as int]);
            assert(decreases_to!(v => v@));
            assert(decreases_to!(v@ => v@[k as int]));
            let sub = whole.subrange(k as int, whole.len() as int);
            assert(sub[0] == x@);
            assert(sub.subrange(1, sub.len() as int) =~= whole.subrange(k + 1, whole.len() as int));
            assert(rest@ =~= orig.subrange(k + 1, orig.len() as int));
        }
        let ghost before_out = nodes_view(out@);
        let h = fill_imports(x, reps);
        proof {
            crate::ast::lemma_nodes_view_push(out@, h);
            let sub = whole.subrange(k as int, whole.len() as int);
            let (t, r) = fill_list(whole.subrange(k + 1, whole.len() as int), nodes_view(reps@));
            assert(before_out + (seq![h@] + t) =~= before_out.push(h@) + t);
        }
        out.push(h);
        k += 1;
    }
    proof {
        assert(whole.subrange(k as int, whole.len() as int) =~= Seq::<SNode>::empty());
        assert(nodes_view(out@) + Seq::<SNode>::empty() =~= nodes_view(out@));
    }
    out
}

fn fill_weighted_exec(w: Vec<(u32, Node)>, reps: &mut Vec<Node>) -> (r: Vec<(u32, Node)>)
    ensures
        (weighted_view(r@), nodes_view(final(reps)@)) == fill_weighted(weighted_view(w@), nodes_view(old(reps)@)),
    decreases w,
{
    let ghost whole = weighted_view(w@);
    let ghost r0 = nodes_view(reps@);
    let ghost orig = w@;
    let mut rest = w;
    let mut out: Vec<(u32, Node)> = Vec::new();
    let total = rest.len();
    let mut k: usize = 0;
    proof {
        assert(whole.subrange(0, whole.len() as int) =~= whole);
        assert(weighted_view(out@) =~= Seq::<(u32, SNode)>::empty());
        assert(weighted_view(out@) + whole =~= whole);
    }
    while rest.len() > 0
        invariant
            0 <= k <= orig.len(),
            orig.len() == total,
            rest@ == orig.subrange(k as int, orig.len() as int),
            whole == weighted_view(orig),
            orig == w@,
            fill_weighted(whole, r0) == ({
                let (t, r) = fill_weighted(whole.subrange(k as int, whole.len() as int), nodes_view(reps@));
                (weighted_view(out@) + t, r)
            }),
        decreases rest.len(),
    {
        let (wt, x) = rest.remove(0);
        proof {
            assert((wt, x) == orig[k as int]);
            assert(decreases_to!(w => w@));
            assert(decreases_to!(w@ => w@[k as int]));
            assert(decreases_to!(w@[k as int] => w@[k as int].1));
            let sub = whole.subrange(k as int, whole.len() as int);
            assert(sub[0] == (wt, x@));
            assert(sub.subrange(1, sub.len() as int) =~= whole.subrange(k + 1, whole.len() as int));
            assert(rest@ =~= orig.subrange(k + 1, orig.len() as int));
        }
        let ghost before_out = weighted_view(out@);
        let h = fill_imports(x, reps);
        proof {
            crate::ast::lemma_weighted_view_push(out@, (wt, h));
            let (t, r) = fill_weighted(whole.subrange(k + 1, whole.len() as int), nodes_view(reps@));
            assert(before_out + (seq![(wt, h@)] + t) =~= before_out.push((wt, h@)) + t);
        }
        out.push((wt, h));
        k += 1;
    }
    proof {
        assert(whole.subrange(k as int, whole.len() as int) =~= Seq::<(u32, SNode)>::empty());
        assert(weighted_view(out@) + Seq::<(u32, SNode)>::empty() =~= weighted_view(out@));
    }
    out
}

fn fill_layers_exec(ls: Vec<Vec<Node>>, reps: &mut Vec<Node>) -> (r: Vec<Vec<Node>>)
    ensures
        (layers_view(r@), nodes_view(final(reps)@)) == fill_layers(layers_view(ls@), nodes_view(old(reps)@)),
    decreases ls,
{
    let ghost whole = layers_view(ls@);
    let ghost r0 = nodes_view(reps@);
    let ghost orig = ls@;
    let mut rest = ls;
    let mut out: Vec<Vec<Node>> = Vec::new();
    let total = rest.len();
    let mut k: usize = 0;
    proof {
        assert(whole.subrange(0, whole.len() as int) =~= whole);
        assert(layers_view(out@) =~= Seq::<Seq<SNode>>::empty());
        assert(layers_view(out@) + whole =~= whole);
    }
    while rest.len() > 0
        invariant
            0 <= k <= orig.len(),
            orig.len() == total,
            rest@ == orig.subrange(k as int, orig.len() as int),
            whole == layers_view(orig),
            orig == ls@,
            fill_layers(whole, r0) == ({
                let (t, r) = fill_layers(whole.subrange(k as int, whole.len() as int), nodes_view(reps@));
                (layers_view(out@) + t, r)
            }),
        decreases rest.len(),
    {
        let x = rest.remove(0);
        proof {
            assert(x == orig[k as int]);
            assert(decreases_to!(ls => ls@));
            assert(decreases_to!(ls@ => ls@[k as int]));
            let sub = whole.subrange(k as int, whole.len() as int);
            assert(sub[0] == nodes_view(x@));
            assert(sub.subrange(1, sub.len() as int) =~= whole.subrange(k + 1, whole.len() as int));
            assert(rest@ =~= orig.subrange(k + 1, orig.len() as int));
        }
        let ghost before_out = layers_view(out@);
        let h = fill_list_exec(x, reps);
        proof {
            crate::ast::lemma_layers_view_push(out@, h);
            let (t, r) = fill_layers(whole.subrange(k + 1, whole.len() as int), nodes_view(reps@));
            assert(before_out + (seq![nodes_view(h@)] + t) =~= before_out.push(nodes_view(h@)) + t);
        }
        out.push(h);
        k += 1;
    }
    proof {
        assert(whole.subrange(k as int, whole.len() as int) =~= Seq::<Seq<SNode>>::empty());
        assert(layers_view(out@) + Seq::<Seq<SNode>>::empty() =~= layers_view(out@));
    }
    out
}

fn fill_segments_exec(segs: Vec<(usize, usize, Box<Node>)>, reps: &mut Vec<Node>) -> (r: Vec<(usize, usize, Box<Node>)>)
    ensures
        (segments_view(r@), nodes_view(final(reps)@)) == fill_segments(segments_view(segs@), nodes_view(old(reps)@)),
    decreases segs,
{
    let ghost whole = segments_view(segs@);
    let ghost r0 = nodes_view(reps@);
    let ghost orig = segs@;
    let mut rest = segs;
    let mut out: Vec<(usize, usize, Box<Node>)> = Vec::new();
    let total = rest.len();
    let mut k: usize = 0;
    proof {
        assert(whole.subrange(0, whole.len() as int) =~= whole);
        assert(segments_view(out@) =~= Seq::<(usize, usize, SNode)>::empty());
        assert(segments_view(out@) + whole =~= whole);
    }
    while rest.len() > 0
        invariant
            0 <= k <= orig.len(),
            orig.len() == total,
            rest@ == orig.subrange(k as int, orig.len() as int),
            whole == segments_view(orig),
            orig == segs@,
            fill_segments(whole, r0) == ({
                let (t, r) = fill_segments(whole.subrange(k as int, whole.len() as int), nodes_view(reps@));
                (segments_view(out@) + t, r)
            }),
        decreases rest.len(),
    {
        let (a, b, x) = rest.remove(0);
        proof {
            assert((a, b, x) == orig[k as int]);
            assert(decreases_to!(segs => segs@));
            assert(decreases_to!(segs@ => segs@[k as int]));
            assert(decreases_to!(segs@[k as int] => segs@[k as int].2));
            let sub = whole.subrange(k as int, whole.len() as int);
            assert(sub[0] == (a, b, crate::ast::node_view(*x)));
            assert(sub.subrange(1, sub.len() as int) =~= whole.subrange(k + 1, whole.len() as int));
            assert(rest@ =~= orig.subrange(k + 1, orig.len() as int));
        }
        let ghost before_out = segments_view(out@);
        let h = fill_imports(*x, reps);
        let g = (a, b, Box::new(h));
        proof {
            crate::ast::lemma_segments_view_push(out@, g);
            let (t, r) = fill_segments(whole.subrange(k + 1, whole.len() as int), nodes_view(reps@));
            assert(before_out + (seq![(a, b, h@)] + t) =~= before_out.push((a, b, h@)) + t);
        }
        out.push(g);
        k += 1;
    }
    proof {
        assert(whole.subrange(k as int, whole.len() as int) =~= Seq::<(usize, usize, SNode)>::empty());
        assert(segments_view(out@) + Seq::<(usize, usize, SNode)>::empty() =~= segments_view(out@));
    }
    out
}

// ---------------------------------------------------------------------
// Laws
// ---------------------------------------------------------------------

/// What is left of `reps` after `k` nodes are taken from its front (all of
/// it taken when it holds fewer).
pub open spec fn after_taking(reps: Seq<SNode>, k: nat) -> Seq<SNode> {
    reps.skip(if k < reps.len() { k as int } else { reps.len() as int })
}

/// None of the nodes holds an import.
pub open spec fn import_free(reps: Seq<SNode>) -> bool {
    forall|i: int| 0 <= i < reps.len() ==> (#[trigger] imports_of(reps[i])).len() == 0
}

proof fn lemma_after_after(reps: Seq<SNode>, a: nat, b: nat)
    ensures
        after_taking(after_taking(reps, a), b) == after_taking(reps, a + b),
{
    assert(after_taking(after_taking(reps, a), b) =~= after_taking(reps, a + b));
}

proof fn lemma_after_zero(reps: Seq<SNode>)
    ensures
        after_taking(reps, 0) == reps,
{
    assert(after_taking(reps, 0) =~= reps);
}

proof fn lemma_taken_list(v: Seq<SNode>, reps: Seq<SNode>)
    ensures
        fill_list(v, reps).1 == after_taking(reps, imports_list(v).len()),
    decreases v,
{
    if v.len() == 0 {
        lemma_after_zero(reps);
    } else {
        assert(decreases_to!(v => v[0]));
        assert(decreases_to!(v => v.subrange(1, v.len() as int)));
        lemma_taken(v[0], reps);
        let r1 = fill(v[0], reps).1;
        lemma_taken_list(v.subrange(1, v.len() as int), r1);
        lemma_after_after(reps, imports_of(v[0]).len(), imports_list(v.subrange(1, v.len() as int)).len());
    }
}

proof fn lemma_taken_weighted(w: Seq<(u32, SNode)>, reps: Seq<SNode>)
    ensures
        fill_weighted(w, reps).1 == after_taking(reps, imports_weighted(w).len()),
    decreases w,
{
    if w.len() == 0 {
        lemma_after_zero(reps);
    } else {
        assert(decreases_to!(w => w[0]));
        assert(decreases_to!(w[0] => w[0].1));
        assert(decreases_to!(w => w.subrange(1, w.len() as int)));
        lemma_taken(w[0].1, reps);
        let r1 = fill(w[0].1, reps).1;
        lemma_taken_weighted(w.subrange(1, w.len() as int), r1);
        lemma_after_after(reps, imports_of(w[0].1).len(), imports_weighted(w.subrange(1, w.len() as int)).len());
    }
}

proof fn lemma_taken_layers(ls: Seq<Seq<SNode>>, reps: Seq<SNode>)
    ensures
        fill_layers(ls, reps).1 == after_taking(reps, imports_layers(ls).len()),
    decreases ls,
{
    if ls.len() == 0 {
        lemma_after_zero(reps);
    } else {
        assert(decreases_to!(ls => ls[0]));
        assert(decreases_to!(ls => ls.subrange(1, ls.len() as int)));
        lemma_taken_list(ls[0], reps);
        let r1 = fill_list(ls[0], reps).1;
        lemma_taken_layers(ls.subrange(1, ls.len() as int), r1);
        lemma_after_after(reps, imports_list(ls[0]).len(), imports_layers(ls.subrange(1, ls.len() as int)).len());
    }
}

proof fn lemma_taken_segments(segs: Seq<(usize, usize, SNode)>, reps: Seq<SNode>)
    ensures
        fill_segments(segs, reps).1 == after_taking(reps, imports_segments(segs).len()),
    decreases segs,
{
    if segs.len() == 0 {
        lemma_after_zero(reps);
    } else {
        assert(decreases_to!(segs => segs[0]));
        assert(decreases_to!(segs[0] => segs[0].2));
        assert(decreases_to!(segs => segs.subrange(1, segs.len() as int)));
        lemma_taken(segs[0].2, reps);
        let r1 = fill(segs[0].2, reps).1;
        lemma_taken_segments(segs.subrange(1, segs.len() as int), r1);
        lemma_after_after(reps, imports_of(segs[0].2).len(), imports_segments(segs.subrange(1, segs.len() as int)).len());
    }
}

proof fn lemma_taken(n: SNode, reps: Seq<SNode>)
    ensures
        fill(n, reps).1 == after_taking(reps, imports_of(n).len()),
    decreases n,
{
    match n {
        SNode::MidiImport(o) => {
            assert(reps.len() > 0 ==> reps.drop_first() =~= after_taking(reps, 1));
            assert(reps.len() == 0 ==> reps =~= after_taking(reps, 1));
        },
        SNode::Chord(v) => lemma_taken_list(v, reps),
        SNode::Sequence(v) => lemma_taken_list(v, reps),
        SNode::ShuffledSequence(v) => lemma_taken_list(v, reps),
        SNode::Alternator(v) => lemma_taken_list(v, reps),
        SNode::Ref(_, args) => lemma_taken_list(args, reps),
        SNode::RandomChoice(w) => lemma_taken_weighted(w, reps),
        SNode::Parallel(ls) => lemma_taken_layers(ls, reps),
        SNode::Polymeter(ls) => lemma_taken_layers(ls, reps),
        SNode::Arrange(segs) => lemma_taken_segments(segs, reps),
        SNode::WithScale(_, c) => lemma_taken(*c, reps),
        SNode::Struct(_, b) => lemma_taken(*b, reps),
        SNode::Modified(c, _) => lemma_taken(*c, reps),
        SNode::Condition { then_branch, else_branch, .. } => {
            lemma_taken(*then_branch, reps);
            let r1 = fill(*then_branch, reps).1;
            lemma_taken(*else_branch, r1);
            lemma_after_after(reps, imports_of(*then_branch).len(), imports_of(*else_branch).len());
        },
        _ => lemma_after_zero(reps),
    }
}

/// Replacing imports takes exactly one node from the front of `reps` for
/// each import, as long as nodes are left.
pub proof fn law_fill_takes_one_per_import(n: SNode, reps: Seq<SNode>)
    ensures
        fill(n, reps).1 == after_taking(reps, imports_of(n).len()),
{
    lemma_taken(n, reps);
}


proof fn lemma_free_after(reps: Seq<SNode>, k: nat)
    requires
        import_free(reps),
    ensures
        import_free(after_taking(reps, k)),
        after_taking(reps, k).len() == (if k < reps.len() { reps.len() - k } else { 0 }),
{
    let a = after_taking(reps, k);
    let s: int = if k < reps.len() { k as int } else { reps.len() as int };
    assert forall|i: int| 0 <= i < a.len() implies (#[trigger] imports_of(a[i])).len() == 0 by {
        assert(a[i] == reps[i + s]);
        assert(imports_of(reps[i + s]).len() == 0);
    }
}

proof fn lemma_list_cons(h: SNode, t: Seq<SNode>)
    ensures
        imports_list(seq![h] + t) == imports_of(h) + imports_list(t),
{
    let u = seq![h] + t;
    assert(u[0] == h);
    assert(u.subrange(1, u.len() as int) =~= t);
}

proof fn lemma_weighted_cons(x: u32, h: SNode, t: Seq<(u32, SNode)>)
    ensures
        imports_weighted(seq![(x, h)] + t) == imports_of(h) + imports_weighted(t),
{
    let u = seq![(x, h)] + t;
    assert(u[0] == (x, h));
    assert(u.subrange(1, u.len() as int) =~= t);
}

proof fn lemma_layers_cons(h: Seq<SNode>, t: Seq<Seq<SNode>>)
    ensures
        imports_layers(seq![h] + t) == imports_list(h) + imports_layers(t),
{
    let u = seq![h] + t;
    assert(u[0] == h);
    assert(u.subrange(1, u.len() as int) =~= t);
}

proof fn lemma_segments_cons(a: usize, b: usize, h: SNode, t: Seq<(usize, usize, SNode)>)
    ensures
        imports_segments(seq![(a, b, h)] + t) == imports_of(h) + imports_segments(t),
{
    let u = seq![(a, b, h)] + t;
    assert(u[0] == (a, b, h));
    assert(u.subrange(1, u.len() as int) =~= t);
}

proof fn lemma_resolved_list(v: Seq<SNode>, reps: Seq<SNode>)
    requires
        import_free(reps),
        reps.len() >= imports_list(v).len(),
    ensures
        imports_list(fill_list(v, reps).0).len() == 0,
    decreases v,
{
    if v.len() > 0 {
        assert(decreases_to!(v => v[0]));
        assert(decreases_to!(v => v.subrange(1, v.len() as int)));
        let rest = v.subrange(1, v.len() as int);
        lemma_resolved(v[0], reps);
        lemma_taken(v[0], reps);
        let (h, r1) = fill(v[0], reps);
        lemma_free_after(reps, imports_of(v[0]).len());
        lemma_resolved_list(rest, r1);
        lemma_list_cons(h, fill_list(rest, r1).0);
    }
}

proof fn lemma_resolved_weighted(w: Seq<(u32, SNode)>, reps: Seq<SNode>)
    requires
        import_free(reps),
        reps.len() >= imports_weighted(w).len(),
    ensures
        imports_weighted(fill_weighted(w, reps).0).len() == 0,
    decreases w,
{
    if w.len() > 0 {
        assert(decreases_to!(w => w[0]));
        assert(decreases_to!(w[0] => w[0].1));
        assert(decreases_to!(w => w.subrange(1, w.len() as int)));
        let rest = w.subrange(1, w.len() as int);
        lemma_resolved(w[0].1, reps);
        lemma_taken(w[0].1, reps);
        let (h, r1) = fill(w[0].1, reps);
        lemma_free_after(reps, imports_of(w[0].1).len());
        lemma_resolved_weighted(rest, r1);
        lemma_weighted_cons(w[0].0, h, fill_weighted(rest, r1).0);
    }
}

proof fn lemma_resolved_layers(ls: Seq<Seq<SNode>>, reps: Seq<SNode>)
    requires
        import_free(reps),
        reps.len() >= imports_layers(ls).len(),
    ensures
        imports_layers(fill_layers(ls, reps).0).len() == 0,
    decreases ls,
{
    if ls.len() > 0 {
        assert(decreases_to!(ls => ls[0]));
        assert(decreases_to!(ls => ls.subrange(1, ls.len() as int)));
        let rest = ls.subrange(1, ls.len() as int);
        lemma_resolved_list(ls[0], reps);
        lemma_taken_list(ls[0], reps);
        let (h, r1) = fill_list(ls[0], reps);
        lemma_free_after(reps, imports_list(ls[0]).len());
        lemma_resolved_layers(rest, r1);
        lemma_layers_cons(h, fill_layers(rest, r1).0);
    }
}

proof fn lemma_resolved_segments(segs: Seq<(usize, usize, SNode)>, reps: Seq<SNode>)
    requires
        import_free(reps),
        reps.len() >= imports_segments(segs).len(),
    ensures
        imports_segments(fill_segments(segs, reps).0).len() == 0,
    decreases segs,
{
    if segs.len() > 0 {
        assert(decreases_to!(segs => segs[0]));
        assert(decreases_to!(segs[0] => segs[0].2));
        assert(decreases_to!(segs => segs.subrange(1, segs.len() as int)));
        let rest = segs.subrange(1, segs.len() as int);
        lemma_resolved(segs[0].2, reps);
        lemma_taken(segs[0].2, reps);
        let (h, r1) = fill(segs[0].2, reps);
        lemma_free_after(reps, imports_of(segs[0].2).len());
        lemma_resolved_segments(rest, r1);
        lemma_segments_cons(segs[0].0, segs[0].1, h, fill_segments(rest, r1).0);
    }
}

proof fn lemma_resolved(n: SNode, reps: Seq<SNode>)
    requires
        import_free(reps),
        reps.len() >= imports_of(n).len(),
    ensures
        imports_of(fill(n, reps).0).len() == 0,
    decreases n,
{
    match n {
        SNode::MidiImport(o) => {
            assert(imports_of(reps[0]).len() == 0);
        },
        SNode::Chord(v) => lemma_resolved_list(v, reps),
        SNode::Sequence(v) => lemma_resolved_list(v, reps),
        SNode::ShuffledSequence(v) => lemma_resolved_list(v, reps),
        SNode::Alternator(v) => lemma_resolved_list(v, reps),
        SNode::Ref(_, args) => lemma_resolved_list(args, reps),
        SNode::RandomChoice(w) => lemma_resolved_weighted(w, reps),
        SNode::Parallel(ls) => lemma_resolved_layers(ls, reps),
        SNode::Polymeter(ls) => lemma_resolved_layers(ls, reps),
        SNode::Arrange(segs) => lemma_resolved_segments(segs, reps),
        SNode::WithScale(_, c) => lemma_resolved(*c, reps),
        SNode::Struct(_, b) => lemma_resolved(*b, reps),
        SNode::Modified(c, _) => lemma_resolved(*c, reps),
        SNode::Condition { then_branch, else_branch, .. } => {
            lemma_resolved(*then_branch, reps);
            lemma_taken(*then_branch, reps);
            let r1 = fill(*then_branch, reps).1;
            lemma_free_after(reps, imports_of(*then_branch).len());
            lemma_resolved(*else_branch, r1);
        },
        _ => {},
    }
}

/// Given a node without imports for every import, replacing them leaves a
/// pattern in which no import remains to be resolved.
pub proof fn law_fill_resolves_every_import(n: SNode, reps: Seq<SNode>)
    requires
        import_free(reps),
        reps.len() >= imports_of(n).len(),
    ensures
        imports_of(fill(n, reps).0).len() == 0,
{
    lemma_resolved(n, reps);
}

// ---------------------------------------------------------------------
// A whole program
// ---------------------------------------------------------------------

/// The imports of the tracks' patterns, track after track.
pub open spec fn tracks_imports(ts: Seq<STrack>) -> Seq<SImport>
    decreases ts.len(),
{
    if ts.len() == 0 {
        Seq::empty()
    } else {
        imports_of(ts[0].root_node) + tracks_imports(ts.drop_first())
    }
}

/// The imports of the macros' bodies, macro after macro.
pub open spec fn macros_imports(ms: Seq<(Seq<char>, SMacro)>) -> Seq<SImport>
    decreases ms.len(),
{
    if ms.len() == 0 {
        Seq::empty()
    } else {
        imports_of(ms[0].1.body) + macros_imports(ms.drop_first())
    }
}

/// The imports of a program: those of its tracks, then those of its macros.
pub open spec fn program_imports(p: SProgram) -> Seq<SImport> {
    tracks_imports(p.tracks) + macros_imports(p.aliases)
}

/// The tracks with their imports replaced from the front of `reps`, and
/// what is left of `reps`.
pub open spec fn fill_tracks(ts: Seq<STrack>, reps: Seq<SNode>) -> (Seq<STrack>, Seq<SNode>)
    decreases ts.len(),
{
    if ts.len() == 0 {
        (ts, reps)
    } else {
        let (root, r1) = fill(ts[0].root_node, reps);
        let (rest, r2) = fill_tracks(ts.drop_first(), r1);
        (seq![STrack { root_node: root, ..ts[0] }] + rest, r2)
    }
}

/// The macros with their imports replaced from the front of `reps`, and
/// what is left of `reps`.
pub open spec fn fill_macros(ms: Seq<(Seq<char>, SMacro)>, reps: Seq<SNode>) -> (Seq<(Seq<char>, SMacro)>, Seq<SNode>)
    decreases ms.len(),
{
    if ms.len() == 0 {
        (ms, reps)
    } else {
        let (body, r1) = fill(ms[0].1.body, reps);
        let (rest, r2) = fill_macros(ms.drop_first(), r1);
        (seq![(ms[0].0, SMacro { body, ..ms[0].1 })] + rest, r2)
    }
}

/// The program with the imports of its tracks, then of its macros,
/// replaced from the front of `reps`.
pub open spec fn fill_program(p: SProgram, reps: Seq<SNode>) -> SProgram {
    let (ts, r1) = fill_tracks(p.tracks, reps);
    let (ms, _) = fill_macros(p.aliases, r1);
    SProgram { tracks: ts, aliases: ms, ..p }
}

pub open spec fn tracks_view(ts: Seq<Track>) -> Seq<STrack> {
    ts.map_values(|t: Track| t@)
}

impl Program {
    /// The MIDI imports of the program, in the order in which they are
    /// resolved: those of the tracks, then those of the macros.
    pub fn midi_imports(&self) -> (r: Vec<MidiImportOptions>)
        ensures
            options_view(r@) == program_imports(self@),
    {
        let mut out: Vec<MidiImportOptions> = Vec::new();
        let ghost tv = tracks_view(self.tracks@);
        let mut i: usize = 0;
        proof {
            assert(tv.skip(0) =~= tv);
            assert(options_view(out@) =~= Seq::<SImport>::empty());
            assert(Seq::<SImport>::empty() + tracks_imports(tv) =~= tracks_imports(tv));
        }
        while i < self.tracks.len()
            invariant
                0 <= i <= self.tracks@.len(),
                tv == tracks_view(self.tracks@),
                tracks_imports(tv) == options_view(out@) + tracks_imports(tv.skip(i as int)),
            decreases self.tracks.len() - i,
        {
            proof {
                assert(tv.skip(i as int)[0] == self.tracks@[i as int]@);
                assert(tv.skip(i as int).drop_first() =~= tv.skip(i + 1));
            }
            let ghost before = options_view(out@);
            collect_imports(&self.tracks[i].root_node, &mut out);
            proof {
                assert(before + tracks_imports(tv.skip(i as int)) =~= options_view(out@) + tracks_imports(tv.skip(i + 1)));
            }
            i += 1;
        }
        let ghost mv = aliases_view(self.aliases@);
        let ghost tracks_part = options_view(out@);
        proof {
            assert(tv.skip(i as int) =~= Seq::<STrack>::empty());
            assert(tracks_part =~= tracks_imports(tv));
            assert(mv.skip(0) =~= mv);
        }
        let mut j: usize = 0;
        while j < self.aliases.len()
            invariant
                0 <= j <= self.aliases@.len(),
                mv == aliases_view(self.aliases@),
                tracks_part + macros_imports(mv) == options_view(out@) + macros_imports(mv.skip(j as int)),
            decreases self.aliases.len() - j,
        {
            proof {
                assert(mv.skip(j as int)[0] == (self.aliases@[j as int].0@, self.aliases@[j as int].1@));
                assert(mv.skip(j as int).drop_first() =~= mv.skip(j + 1));
            }
            let ghost before = options_view(out@);
            collect_imports(&self.aliases[j].1.body, &mut out);
            proof {
                assert(before + macros_imports(mv.skip(j as int)) =~= options_view(out@) + macros_imports(mv.skip(j + 1)));
            }
            j += 1;
        }
        proof {
            assert(mv.skip(j as int) =~= Seq::<(Seq<char>, SMacro)>::empty());
            assert(options_view(out@) + Seq::<SImport>::empty() =~= options_view(out@));
        }
        out
    }

    /// Replaces the MIDI imports of the program, in the order of
    /// `midi_imports`, by the nodes of `reps`.
    pub fn fill_midi_imports(&mut self, reps: Vec<Node>)
        ensures
            final(self)@ == fill_program(old(self)@, nodes_view(reps@)),
    {
        let mut reps = reps;
        let ghost r0 = nodes_view(reps@);
        let mut tracks: Vec<Track> = Vec::new();
        std::mem::swap(&mut tracks, &mut self.tracks);
        let ghost whole = tracks_view(tracks@);
        let ghost orig = tracks@;
        let mut out: Vec<Track> = Vec::new();
        let total = tracks.len();
        let mut k: usize = 0;
        proof {
            assert(whole.skip(0) =~= whole);
            assert(tracks_view(out@) =~= Seq::<STrack>::empty());
            assert(tracks_view(out@) + whole =~= whole);
        }
        while tracks.len() > 0
            invariant
                0 <= k <= orig.len(),
                orig.len() == total,
                tracks@ == orig.skip(k as int),
                whole == tracks_view(orig),
                fill_tracks(whole, r0) == ({
                    let (t, r) = fill_tracks(whole.skip(k as int), nodes_view(reps@));
                    (tracks_view(out@) + t, r)
                }),
            decreases tracks.len(),
        {
            let mut t = tracks.remove(0);
            proof {
                assert(t == orig[k as int]);
                assert(whole.skip(k as int)[0] == t@);
                assert(whole.skip(k as int).drop_first() =~= whole.skip(k + 1));
                assert(tracks@ =~= orig.skip(k + 1));
            }
            let ghost before = t@;
            let ghost out_before = tracks_view(out@);
            let mut taken = Node::Rest;
            std::mem::swap(&mut taken, &mut t.root_node);
            t.root_node = fill_imports(taken, &mut reps);
            proof {
                assert(t@ == (STrack { root_node: t.root_node@, ..before }));
                assert(tracks_view(out@.push(t)) =~= out_before.push(t@));
                let (rest, r2) = fill_tracks(whole.skip(k + 1), nodes_view(reps@));
                assert(out_before + (seq![t@] + rest) =~= out_before.push(t@) + rest);
            }
            out.push(t);
            k += 1;
        }
        proof {
            assert(whole.skip(k as int) =~= Seq::<STrack>::empty());
            assert(tracks_view(out@) + Seq::<STrack>::empty() =~= tracks_view(out@));
        }
        self.tracks = out;
        let ghost r1 = nodes_view(reps@);
        let mut aliases: Vec<(String, MacroDef)> = Vec::new();
        std::mem::swap(&mut aliases, &mut self.aliases);
        let ghost mwhole = aliases_view(aliases@);
        let ghost morig = aliases@;
        let mut mout: Vec<(String, MacroDef)> = Vec::new();
        let mtotal = aliases.len();
        let mut j: usize = 0;
        proof {
            assert(mwhole.skip(0) =~= mwhole);
            assert(aliases_view(mout@) =~= Seq::<(Seq<char>, SMacro)>::empty());
            assert(aliases_view(mout@) + mwhole =~= mwhole);
        }
        while aliases.len() > 0
            invariant
                0 <= j <= morig.len(),
                morig.len() == mtotal,
                aliases@ == morig.skip(j as int),
                mwhole == aliases_view(morig),
                fill_macros(mwhole, r1) == ({
                    let (t, r) = fill_macros(mwhole.skip(j as int), nodes_view(reps@));
                    (aliases_view(mout@) + t, r)
                }),
            decreases aliases.len(),
        {
            let (name, mut m) = aliases.remove(0);
            proof {
                assert((name, m) == morig[j as int]);
                assert(mwhole.skip(j as int)[0] == (name@, m@));
                assert(mwhole.skip(j as int).drop_first() =~= mwhole.skip(j + 1));
                assert(aliases@ =~= morig.skip(j + 1));
            }
            let ghost before = m@;
            let ghost out_before = aliases_view(mout@);
            let mut taken = Node::Rest;
            std::mem::swap(&mut taken, &mut m.body);
            m.body = fill_imports(taken, &mut reps);
            proof {
                assert(m@ == (SMacro { body: m.body@, ..before }));
                assert(aliases_view(mout@.push((name, m))) =~= out_before.push((name@, m@)));
                let (rest, r2) = fill_macros(mwhole.skip(j + 1), nodes_view(reps@));
                assert(out_before + (seq![(name@, m@)] + rest) =~= out_before.push((name@, m@)) + rest);
            }
            mout.push((name, m));
            j += 1;
        }
        proof {
            assert(mwhole.skip(j as int) =~= Seq::<(Seq<char>, SMacro)>::empty());
            assert(aliases_view(mout@) + Seq::<(Seq<char>, SMacro)>::empty() =~= aliases_view(mout@));
        }
        self.aliases = mout;
    }
}

proof fn lemma_tracks_taken(ts: Seq<STrack>, reps: Seq<SNode>)
    ensures
        fill_tracks(ts, reps).1 == after_taking(reps, tracks_imports(ts).len()),
    decreases ts.len(),
{
    if ts.len() == 0 {
        lemma_after_zero(reps);
    } else {
        lemma_taken(ts[0].root_node, reps);
        lemma_tracks_taken(ts.drop_first(), fill(ts[0].root_node, reps).1);
        lemma_after_after(reps, imports_of(ts[0].root_node).len(), tracks_imports(ts.drop_first()).len());
    }
}

proof fn lemma_tracks_resolved(ts: Seq<STrack>, reps: Seq<SNode>)
    requires
        import_free(reps),
        reps.len() >= tracks_imports(ts).len(),
    ensures
        tracks_imports(fill_tracks(ts, reps).0).len() == 0,
    decreases ts.len(),
{
    if ts.len() > 0 {
        let (root, r1) = fill(ts[0].root_node, reps);
        lemma_resolved(ts[0].root_node, reps);
        lemma_taken(ts[0].root_node, reps);
        lemma_free_after(reps, imports_of(ts[0].root_node).len());
        lemma_tracks_resolved(ts.drop_first(), r1);
        let u = fill_tracks(ts, reps).0;
        assert(u[0].root_node == root);
        assert(u.drop_first() =~= fill_tracks(ts.drop_first(), r1).0);
    }
}

proof fn lemma_macros_taken(ms: Seq<(Seq<char>, SMacro)>, reps: Seq<SNode>)
    ensures
        fill_macros(ms, reps).1 == after_taking(reps, macros_imports(ms).len()),
    decreases ms.len(),
{
    if ms.len() == 0 {
        lemma_after_zero(reps);
    } else {
        lemma_taken(ms[0].1.body, reps);
        lemma_macros_taken(ms.drop_first(), fill(ms[0].1.body, reps).1);
        lemma_after_after(reps, imports_of(ms[0].1.body).len(), macros_imports(ms.drop_first()).len());
    }
}

proof fn lemma_macros_resolved(ms: Seq<(Seq<char>, SMacro)>, reps: Seq<SNode>)
    requires
        import_free(reps),
        reps.len() >= macros_imports(ms).len(),
    ensures
        macros_imports(fill_macros(ms, reps).0).len() == 0,
    decreases ms.len(),
{
    if ms.len() > 0 {
        let (body, r1) = fill(ms[0].1.body, reps);
        lemma_resolved(ms[0].1.body, reps);
        lemma_taken(ms[0].1.body, reps);
        lemma_free_after(reps, imports_of(ms[0].1.body).len());
        lemma_macros_resolved(ms.drop_first(), r1);
        let u = fill_macros(ms, reps).0;
        assert(u[0].1.body == body);
        assert(u.drop_first() =~= fill_macros(ms.drop_first(), r1).0);
    }
}

/// Given a node without imports for every import of a program, in the order
/// of `midi_imports`, replacing them leaves a program with no import in its
/// tracks or macros.
pub proof fn law_program_imports_resolved(p: SProgram, reps: Seq<SNode>)
    requires
        import_free(reps),
        reps.len() >= program_imports(p).len(),
    ensures
        program_imports(fill_program(p, reps)).len() == 0,
{
    lemma_tracks_resolved(p.tracks, reps);
    lemma_tracks_taken(p.tracks, reps);
    let r1 = fill_tracks(p.tracks, reps).1;
    lemma_free_after(reps, tracks_imports(p.tracks).len());
    lemma_macros_resolved(p.aliases, r1);
}

} // verus!

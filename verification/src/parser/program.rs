//! A whole program: global directives, then macro and track definitions.
use vstd::prelude::*;
use crate::aliases::{insert_alias, law_put_keeps_unique, names_unique, put_alias};
use crate::ast::{
    aliases_view, nodes_view, strings_view, MacroDef, Node, Program, SMacro, SNode, SProgram,
    STrack, Track,
};
use super::directives::{global_directives, spec_global_directives};
use super::expr::{
    expr_list, is_reserved_name, reserved_name, single_or_seq, single_or_seq_exec, spec_expr_list,
};
use super::primitives::{
    ident, kw, lemma_ident, lemma_kw_bounds, lemma_pad_char_bounds, lemma_padding_bounds, pad_char,
    padding, spec_ident, spec_kw, spec_pad_char, spec_padding, substring,
};
use super::track::{spec_track, track_parser};

verus! {

/// Where reading a program stopped, when what follows is not part of it.
#[derive(Clone, Copy, Debug, PartialEq, Eq, Structural)]
pub struct ParseError {
    pub offset: usize,
}

/// A top-level definition, as read.
pub enum SItem {
    Alias(Seq<char>, Seq<Seq<char>>, SNode),
    Track(STrack),
}

/// A parameter name with padding round it.
pub open spec fn spec_param(s: Seq<char>, pos: usize) -> Option<(Seq<char>, usize)> {
    let p0 = spec_padding(s, pos);
    match spec_ident(s, p0) {
        Some(e) => Some((s.subrange(p0 as int, e as int), spec_padding(s, e))),
        None => None,
    }
}

pub proof fn lemma_param(s: Seq<char>, pos: usize)
    requires
        pos <= s.len() <= usize::MAX,
    ensures
        spec_param(s, pos) matches Some((_, e)) ==> pos < e <= s.len(),
{
    lemma_padding_bounds(s, pos);
    lemma_ident(s, spec_padding(s, pos));
    if let Some(e) = spec_ident(s, spec_padding(s, pos)) {
        lemma_padding_bounds(s, e);
    }
}

/// Parameters after the first: `, name` repeatedly.
pub open spec fn spec_params_rest(s: Seq<char>, pos: usize) -> (Seq<Seq<char>>, usize)
    decreases s.len() - pos
    when pos <= s.len() && s.len() <= usize::MAX
{
    match spec_pad_char(s, pos, ',') {
        Some(p1) => {
            proof {
                lemma_pad_char_bounds(s, pos, ',');
            }
            match spec_param(s, p1) {
                Some((n, p2)) => {
                    proof {
                        lemma_param(s, p1);
                    }
                    let (rest, p3) = spec_params_rest(s, p2);
                    (seq![n] + rest, p3)
                },
                None => (Seq::empty(), pos),
            }
        },
        None => (Seq::empty(), pos),
    }
}

/// Names separated by commas (possibly none).
pub open spec fn spec_params(s: Seq<char>, pos: usize) -> (Seq<Seq<char>>, usize) {
    match spec_param(s, pos) {
        Some((n, p1)) => {
            let (rest, p2) = spec_params_rest(s, p1);
            (seq![n] + rest, p2)
        },
        None => (Seq::empty(), pos),
    }
}

/// `( names )`.
pub open spec fn spec_param_block(s: Seq<char>, pos: usize) -> Option<(Seq<Seq<char>>, usize)> {
    match spec_pad_char(s, pos, '(') {
        Some(p1) => {
            let (ps, p2) = spec_params(s, p1);
            match spec_pad_char(s, p2, ')') {
                Some(p3) => Some((ps, p3)),
                None => None,
            }
        },
        None => None,
    }
}

pub open spec fn w_let() -> Seq<char> {
    seq!['l', 'e', 't']
}

/// `let name[(params)] = exprs`, with at least one expression.
pub open spec fn spec_alias_def(s: Seq<char>, pos: usize) -> Option<((Seq<char>, Seq<Seq<char>>, SNode), usize)> {
    match spec_kw(s, pos, w_let()) {
        Some(p1) => match spec_ident(s, p1) {
            Some(e) => {
                let name = s.subrange(p1 as int, e as int);
                if is_reserved_name(name) {
                    None
                } else {
                    let (ps, p2) = match spec_param_block(s, e) {
                        Some(x) => x,
                        None => (Seq::empty(), e),
                    };
                    match spec_pad_char(s, p2, '=') {
                        Some(p3) => {
                            let (items, p4) = spec_expr_list(s, p3);
                            if items.len() == 0 {
                                None
                            } else {
                                Some(((name, ps, single_or_seq(items)), p4))
                            }
                        },
                        None => None,
                    }
                }
            },
            None => None,
        },
        None => None,
    }
}

/// A macro or a track definition, with padding round it.
pub open spec fn spec_item(s: Seq<char>, pos: usize) -> Option<(SItem, usize)> {
    let p0 = spec_padding(s, pos);
    match spec_alias_def(s, p0) {
        Some(((n, ps, b), e)) => Some((SItem::Alias(n, ps, b), spec_padding(s, e))),
        None => match spec_track(s, p0) {
            Some((t, e)) => Some((SItem::Track(t), spec_padding(s, e))),
            None => None,
        },
    }
}

/// Definitions one after another, as long as they parse.
pub open spec fn spec_items(s: Seq<char>, pos: usize) -> (Seq<SItem>, usize)
    decreases s.len() - pos
    when pos <= s.len() && s.len() <= usize::MAX
{
    match spec_item(s, pos) {
        Some((it, p1)) => if pos < p1 <= s.len() {
            let (rest, p2) = spec_items(s, p1);
            (seq![it] + rest, p2)
        } else {
            (Seq::empty(), pos)
        },
        None => (Seq::empty(), pos),
    }
}

/// The macro table that definitions build, in order.
pub open spec fn items_aliases(items: Seq<SItem>) -> Seq<(Seq<char>, SMacro)>
    decreases items.len(),
{
    if items.len() == 0 {
        Seq::empty()
    } else {
        let prev = items_aliases(items.drop_last());
        match items.last() {
            SItem::Alias(n, ps, b) => put_alias(prev, n, SMacro { params: ps, body: b }),
            SItem::Track(_) => prev,
        }
    }
}

/// The tracks among the definitions, in order.
pub open spec fn items_tracks(items: Seq<SItem>) -> Seq<STrack>
    decreases items.len(),
{
    if items.len() == 0 {
        Seq::empty()
    } else {
        let prev = items_tracks(items.drop_last());
        match items.last() {
            SItem::Alias(..) => prev,
            SItem::Track(t) => prev.push(t),
        }
    }
}

/// What a text reads as: a program when everything in it belongs to the
/// program, else the position where reading stopped.
pub open spec fn spec_parse(s: Seq<char>) -> Result<SProgram, usize> {
    let p0 = spec_padding(s, 0);
    let (g, p1) = spec_global_directives(s, p0);
    let (items, p2) = spec_items(s, p1);
    let p3 = spec_padding(s, p2);
    if p3 == s.len() {
        Ok(
            SProgram {
                bpm: g.bpm,
                signature: g.signature,
                quantize: g.quantize,
                scale: g.scale,
                scale_seq: g.scale_seq,
                global_silence: g.global_silence,
                includes: g.includes,
                aliases: items_aliases(items),
                tracks: items_tracks(items),
            },
        )
    } else {
        Err(p3)
    }
}

/// The macro table that definitions build never holds a name twice.
pub proof fn law_items_aliases_unique(items: Seq<SItem>)
    ensures
        names_unique(items_aliases(items)),
    decreases items.len(),
{
    if items.len() > 0 {
        law_items_aliases_unique(items.drop_last());
        if let SItem::Alias(n, ps, b) = items.last() {
            law_put_keeps_unique(items_aliases(items.drop_last()), n, SMacro { params: ps, body: b });
        }
    }
}

/// The characters of a text.
pub fn text_chars(src: &str) -> (r: Vec<char>)
    ensures
        r@ == src@,
{
    let mut v: Vec<char> = Vec::new();
    for c in it: src.chars()
        invariant
            v@ == it.seq().take(it.index()),
            it.seq() == src@,
    {
        v.push(c);
    }
    v
}

fn param(s: &Vec<char>, pos: usize) -> (r: Option<(String, usize)>)
    requires
        pos <= s@.len() <= usize::MAX,
    ensures
        crate::ast::agrees(r, spec_param(s@, pos)),
        r matches Some((_, e)) ==> pos < e <= s@.len(),
{
    proof {
        lemma_param(s@, pos);
    }
    let p0 = padding(s, pos);
    let e = ident(s, p0)?;
    Some((substring(s, p0, e), padding(s, e)))
}

fn params(s: &Vec<char>, pos: usize) -> (r: (Vec<String>, usize))
    requires
        pos <= s@.len() <= usize::MAX,
    ensures
        strings_view(r.0@) == spec_params(s@, pos).0,
        r.1 == spec_params(s@, pos).1,
        pos <= r.1 <= s@.len(),
{
    let mut out: Vec<String> = Vec::new();
    let (n, p1) = match param(s, pos) {
        Some(x) => x,
        None => {
            assert(strings_view(out@) =~= Seq::<Seq<char>>::empty());
            return (out, pos);
        },
    };
    out.push(n);
    let mut p = p1;
    let ghost target = spec_params(s@, pos);
    proof {
        assert(target.0 =~= strings_view(out@) + spec_params_rest(s@, p).0);
    }
    loop
        invariant
            pos <= p <= s@.len() <= usize::MAX,
            target == spec_params(s@, pos),
            target.0 == strings_view(out@) + spec_params_rest(s@, p).0,
            target.1 == spec_params_rest(s@, p).1,
        decreases s@.len() - p,
    {
        let q = match pad_char(s, p, ',') {
            Some(q1) => q1,
            None => {
                assert(target.0 =~= strings_view(out@));
                return (out, p);
            },
        };
        match param(s, q) {
            Some((n2, p2)) => {
                proof {
                    let rest = spec_params_rest(s@, p2).0;
                    assert(strings_view(out@.push(n2)) =~= strings_view(out@).push(n2@));
                    assert(strings_view(out@) + (seq![n2@] + rest) =~= strings_view(out@).push(n2@)
                        + rest);
                }
                out.push(n2);
                p = p2;
            },
            None => {
                assert(target.0 =~= strings_view(out@));
                return (out, p);
            },
        }
    }
}

fn param_block(s: &Vec<char>, pos: usize) -> (r: Option<(Vec<String>, usize)>)
    requires
        pos <= s@.len() <= usize::MAX,
    ensures
        match r {
            Some((v, e)) => spec_param_block(s@, pos) == Some((strings_view(v@), e)) && pos < e
                <= s@.len(),
            None => spec_param_block(s@, pos) is None,
        },
{
    let p1 = pad_char(s, pos, '(')?;
    let (ps, p2) = params(s, p1);
    let p3 = pad_char(s, p2, ')')?;
    Some((ps, p3))
}


fn alias_def(s: &Vec<char>, pos: usize) -> (r: Option<((String, Vec<String>, Node), usize)>)
    requires
        pos <= s@.len() <= usize::MAX,
    ensures
        match r {
            Some((d, e)) => spec_alias_def(s@, pos) == Some(((d.0@, strings_view(d.1@), d.2@), e))
                && pos < e <= s@.len(),
            None => spec_alias_def(s@, pos) is None,
        },
{
    let w = ['l', 'e', 't'];
    assert(w@ =~= w_let());
    proof {
        lemma_kw_bounds(s@, pos, w@);
    }
    let p1 = kw(s, pos, &w)?;
    let e = ident(s, p1)?;
    if reserved_name(s, p1, e) {
        return None;
    }
    let name = substring(s, p1, e);
    let (ps, p2) = match param_block(s, e) {
        Some(x) => x,
        None => {
            let none: Vec<String> = Vec::new();
            assert(strings_view(none@) =~= Seq::<Seq<char>>::empty());
            (none, e)
        },
    };
    let p3 = pad_char(s, p2, '=')?;
    let (items, p4) = expr_list(s, p3);
    if items.len() == 0 {
        return None;
    }
    Some(((name, ps, single_or_seq_exec(items)), p4))
}

/// A definition, as read.
pub enum Item {
    Alias(String, Vec<String>, Node),
    Track(Track),
}

impl View for Item {
    type V = SItem;

    open spec fn view(&self) -> SItem {
        match self {
            Item::Alias(n, ps, b) => SItem::Alias(n@, strings_view(ps@), b@),
            Item::Track(t) => SItem::Track(t@),
        }
    }
}

/// Reads a macro or a track definition.
pub fn item(s: &Vec<char>, pos: usize) -> (r: Option<(Item, usize)>)
    requires
        pos <= s@.len() <= usize::MAX,
    ensures
        crate::ast::agrees(r, spec_item(s@, pos)),
        r matches Some((_, e)) ==> pos < e <= s@.len(),
{
    let p0 = padding(s, pos);
    if let Some(((n, ps, b), e)) = alias_def(s, p0) {
        return Some((Item::Alias(n, ps, b), padding(s, e)));
    }
    let (t, e) = track_parser(s, p0)?;
    Some((Item::Track(t), padding(s, e)))
}

/// Reads a whole program. It succeeds when the text holds nothing but the
/// program; otherwise it answers the position where reading stopped.
pub fn mmn_parser(src: &str) -> (r: Result<Program, ParseError>)
    ensures
        match r {
            Ok(p) => spec_parse(src@) == Ok::<SProgram, usize>(p@) && names_unique(p@.aliases),
            Err(e) => spec_parse(src@) == Err::<SProgram, usize>(e.offset),
        },
{
    let s = text_chars(src);
    let n = s.len();
    assert(s@.len() == n);
    let p0 = padding(&s, 0);
    let (g, p1) = global_directives(&s, p0);
    let mut aliases: Vec<(String, MacroDef)> = Vec::new();
    let mut tracks: Vec<Track> = Vec::new();
    let mut p = p1;
    let ghost mut done: Seq<SItem> = Seq::empty();
    proof {
        assert(aliases_view(aliases@) =~= Seq::<(Seq<char>, SMacro)>::empty());
        assert(tracks@.map_values(|t: Track| t@) =~= Seq::<STrack>::empty());
        assert(spec_items(s@, p1).0 =~= done + spec_items(s@, p).0);
    }
    loop
        invariant
            p1 <= p <= s@.len() <= usize::MAX,
            spec_items(s@, p1).0 == done + spec_items(s@, p).0,
            spec_items(s@, p1).1 == spec_items(s@, p).1,
            aliases_view(aliases@) == items_aliases(done),
            tracks@.map_values(|t: Track| t@) == items_tracks(done),
        ensures
            spec_items(s@, p).0 == Seq::<SItem>::empty(),
            spec_items(s@, p).1 == p,
        decreases s@.len() - p,
    {
        match item(&s, p) {
            Some((it, p2)) => {
                let ghost iv = it@;
                proof {
                    let rest = spec_items(s@, p2).0;
                    assert(done + (seq![iv] + rest) =~= done.push(iv) + rest);
                    assert(done.push(iv).drop_last() =~= done);
                }
                match it {
                    Item::Alias(n, ps, b) => {
                        insert_alias(&mut aliases, n, MacroDef { params: ps, body: b });
                    },
                    Item::Track(t) => {
                        let ghost before = tracks@;
                        tracks.push(t);
                        assert(tracks@.map_values(|t: Track| t@) =~= before.map_values(
                            |t: Track| t@,
                        ).push(iv->Track_0));
                    },
                }
                proof {
                    done = done.push(iv);
                }
                p = p2;
            },
            None => {
                break ;
            },
        }
    }
    let p3 = padding(&s, p);
    proof {
        assert(done + Seq::<SItem>::empty() =~= done);
        law_items_aliases_unique(done);
    }
    if p3 == s.len() {
        Ok(
            Program {
                bpm: g.bpm,
                signature: g.signature,
                quantize: g.quantize,
                scale: g.scale,
                scale_seq: g.scale_seq,
                global_silence: g.global_silence,
                includes: g.includes,
                aliases,
                tracks,
            },
        )
    } else {
        Err(ParseError { offset: p3 })
    }
}


/// What a text reads as when it holds a single expression.
pub open spec fn spec_node_parse(s: Seq<char>) -> Result<SNode, usize> {
    let p0 = spec_padding(s, 0);
    match super::expr::spec_expr(s, p0) {
        Some((n, p1)) => {
            let p2 = spec_padding(s, p1);
            if p2 == s.len() {
                Ok(n)
            } else {
                Err(p2)
            }
        },
        None => Err(p0),
    }
}

/// Reads a text that holds one expression, with padding round it.
pub fn node_parser(src: &str) -> (r: Result<Node, ParseError>)
    ensures
        match r {
            Ok(n) => spec_node_parse(src@) == Ok::<SNode, usize>(n@),
            Err(e) => spec_node_parse(src@) == Err::<SNode, usize>(e.offset),
        },
{
    let s = text_chars(src);
    let n = s.len();
    assert(s@.len() == n);
    let p0 = padding(&s, 0);
    match super::expr::expr(&s, p0) {
        Some((node, p1)) => {
            let p2 = padding(&s, p1);
            if p2 == n {
                Ok(node)
            } else {
                Err(ParseError { offset: p2 })
            }
        },
        None => Err(ParseError { offset: p0 }),
    }
}

} // verus!

//! Scales and the global `#` directives at the head of a program.
use vstd::prelude::*;
use crate::ast::{Decimal, QuantizeMode, ScaleDef, ScaleSequence, SScale, SScaleSeq};
use super::primitives::{
    first_lit, float_f64, int_i32, int_u8, int_usize, just, kw, lemma_first_lit, lemma_kw_bounds,
    lemma_pad_char_bounds, lemma_padding_bounds, lit, pad_char, padding, pitch_val, spec_decimal,
    spec_first_lit, spec_int_i32, spec_int_u8, spec_int_usize, spec_just, spec_kw, spec_lit,
    spec_pad_char, spec_padding, spec_pitch_val, substring,
};

verus! {

/// The scale names, in the order in which they are tried.
pub open spec fn scale_words() -> Seq<Seq<char>> {
    seq![
        seq!['m', 'a', 'j', 'o', 'r'],
        seq!['m', 'i', 'n', 'o', 'r', '_', 'p', 'e', 'n', 't', 'a', 't', 'o', 'n', 'i', 'c'],
        seq!['m', 'i', 'n', 'o', 'r'],
        seq!['d', 'o', 'r', 'i', 'a', 'n'],
        seq!['p', 'h', 'r', 'y', 'g', 'i', 'a', 'n'],
        seq!['l', 'y', 'd', 'i', 'a', 'n'],
        seq!['m', 'i', 'x', 'o', 'l', 'y', 'd', 'i', 'a', 'n'],
        seq!['l', 'o', 'c', 'r', 'i', 'a', 'n'],
        seq!['p', 'e', 'n', 't', 'a', 't', 'o', 'n', 'i', 'c'],
        seq!['c', 'h', 'r', 'o', 'm', 'a', 't', 'i', 'c'],
    ]
}

/// The semitone offsets of the scale with index `k` of `scale_words`.
pub open spec fn scale_intervals(k: int) -> Seq<u8> {
    if k == 0 {
        seq![0u8, 2, 4, 5, 7, 9, 11]
    } else if k == 1 {
        seq![0u8, 3, 5, 7, 10]
    } else if k == 2 {
        seq![0u8, 2, 3, 5, 7, 8, 10]
    } else if k == 3 {
        seq![0u8, 2, 3, 5, 7, 9, 10]
    } else if k == 4 {
        seq![0u8, 1, 3, 5, 7, 8, 10]
    } else if k == 5 {
        seq![0u8, 2, 4, 6, 7, 9, 11]
    } else if k == 6 {
        seq![0u8, 2, 4, 5, 7, 9, 10]
    } else if k == 7 {
        seq![0u8, 1, 3, 5, 6, 8, 10]
    } else if k == 8 {
        seq![0u8, 2, 4, 7, 9]
    } else {
        seq![0u8, 1, 2, 3, 4, 5, 6, 7, 8, 9, 10, 11]
    }
}

pub open spec fn spec_scale_name(s: Seq<char>, pos: usize) -> Option<(Seq<u8>, usize)> {
    match spec_first_lit(s, pos, scale_words(), 0) {
        Some((k, e)) => Some((scale_intervals(k), e)),
        None => None,
    }
}

/// Reads a scale name as its semitone offsets.
pub fn scale_name(s: &Vec<char>, pos: usize) -> (r: Option<(Vec<u8>, usize)>)
    requires
        pos <= s@.len() <= usize::MAX,
    ensures
        match r {
            Some((v, e)) => spec_scale_name(s@, pos) == Some((v@, e)),
            None => spec_scale_name(s@, pos) is None,
        },
        r matches Some((v, e)) ==> pos < e <= s@.len() && v@.len() > 0,
{
    let words: [&[char]; 10] = [
        &['m', 'a', 'j', 'o', 'r'],
        &['m', 'i', 'n', 'o', 'r', '_', 'p', 'e', 'n', 't', 'a', 't', 'o', 'n', 'i', 'c'],
        &['m', 'i', 'n', 'o', 'r'],
        &['d', 'o', 'r', 'i', 'a', 'n'],
        &['p', 'h', 'r', 'y', 'g', 'i', 'a', 'n'],
        &['l', 'y', 'd', 'i', 'a', 'n'],
        &['m', 'i', 'x', 'o', 'l', 'y', 'd', 'i', 'a', 'n'],
        &['l', 'o', 'c', 'r', 'i', 'a', 'n'],
        &['p', 'e', 'n', 't', 'a', 't', 'o', 'n', 'i', 'c'],
        &['c', 'h', 'r', 'o', 'm', 'a', 't', 'i', 'c'],
    ];
    proof {
        let ws = words@.map_values(|w: &[char]| w@);
        assert(ws[0] =~= scale_words()[0]);
        assert(ws[1] =~= scale_words()[1]);
        assert(ws[2] =~= scale_words()[2]);
        assert(ws[3] =~= scale_words()[3]);
        assert(ws[4] =~= scale_words()[4]);
        assert(ws[5] =~= scale_words()[5]);
        assert(ws[6] =~= scale_words()[6]);
        assert(ws[7] =~= scale_words()[7]);
        assert(ws[8] =~= scale_words()[8]);
        assert(ws[9] =~= scale_words()[9]);
        assert(ws =~= scale_words());
        lemma_first_lit(s@, pos, scale_words(), 0);
    }
    match first_lit(s, pos, &words) {
        Some((k, e)) => {
            let v: Vec<u8> = if k == 0 {
                vec![0, 2, 4, 5, 7, 9, 11]
            } else if k == 1 {
                vec![0, 3, 5, 7, 10]
            } else if k == 2 {
                vec![0, 2, 3, 5, 7, 8, 10]
            } else if k == 3 {
                vec![0, 2, 3, 5, 7, 9, 10]
            } else if k == 4 {
                vec![0, 1, 3, 5, 7, 8, 10]
            } else if k == 5 {
                vec![0, 2, 4, 6, 7, 9, 11]
            } else if k == 6 {
                vec![0, 2, 4, 5, 7, 9, 10]
            } else if k == 7 {
                vec![0, 1, 3, 5, 6, 8, 10]
            } else if k == 8 {
                vec![0, 2, 4, 7, 9]
            } else {
                vec![0, 1, 2, 3, 4, 5, 6, 7, 8, 9, 10, 11]
            };
            assert(v@ =~= scale_intervals(k as int));
            Some((v, e))
        },
        None => None,
    }
}

/// The end of a run of spaces (only `' '`).
pub open spec fn spec_spaces_end(s: Seq<char>, pos: usize) -> usize
    decreases s.len() - pos
    when pos <= s.len() && s.len() <= usize::MAX
{
    if pos < s.len() && s[pos as int] == ' ' {
        spec_spaces_end(s, (pos + 1) as usize)
    } else {
        pos
    }
}

pub proof fn lemma_spaces_end(s: Seq<char>, pos: usize)
    requires
        pos <= s.len() <= usize::MAX,
    ensures
        pos <= spec_spaces_end(s, pos) <= s.len(),
    decreases s.len() - pos,
{
    if pos < s.len() && s[pos as int] == ' ' {
        lemma_spaces_end(s, (pos + 1) as usize);
    }
}

/// A root note, at least one space, and a scale name (`C4 minor`).
pub open spec fn spec_scale_def(s: Seq<char>, pos: usize) -> Option<(SScale, usize)> {
    match spec_pitch_val(s, pos) {
        Some((root, p1)) => {
            let p2 = spec_spaces_end(s, p1);
            if p2 == p1 {
                None
            } else {
                match spec_scale_name(s, p2) {
                    Some((iv, p3)) => Some((SScale { root_pitch: root, intervals: iv }, p3)),
                    None => None,
                }
            }
        },
        None => None,
    }
}

pub proof fn lemma_scale_def(s: Seq<char>, pos: usize)
    requires
        pos <= s.len() <= usize::MAX,
    ensures
        spec_scale_def(s, pos) matches Some((sc, e)) ==> pos < e <= s.len() && sc.intervals.len() > 0,
{
    if let Some((root, p1)) = spec_pitch_val(s, pos) {
        lemma_pitch_val(s, pos);
        lemma_spaces_end(s, p1);
        let p2 = spec_spaces_end(s, p1);
        if p2 != p1 {
            lemma_first_lit(s, p2, scale_words(), 0);
            if let Some((k, e)) = spec_first_lit(s, p2, scale_words(), 0) {
                assert(scale_intervals(k).len() > 0);
                assert(scale_words()[k].len() > 0);
            }
        }
    }
}

pub proof fn lemma_pitch_val(s: Seq<char>, pos: usize)
    requires
        pos <= s.len() <= usize::MAX,
    ensures
        spec_pitch_val(s, pos) matches Some((_, e)) ==> pos < e <= s.len(),
{
    // pitch_val's exec version establishes the same bounds; restated here for specs.
    super::primitives::lemma_pitch_val_bounds(s, pos);
}

fn spaces_end(s: &Vec<char>, pos: usize) -> (r: usize)
    requires
        pos <= s@.len() <= usize::MAX,
    ensures
        r == spec_spaces_end(s@, pos),
        pos <= r <= s@.len(),
{
    proof {
        lemma_spaces_end(s@, pos);
    }
    let n = s.len();
    let mut p = pos;
    while p < n && s[p] == ' '
        invariant
            n == s@.len() <= usize::MAX,
            pos <= p <= n,
            spec_spaces_end(s@, p) == spec_spaces_end(s@, pos),
        decreases n - p,
    {
        p = p + 1;
    }
    p
}

/// Parses a scale definition (`C4 minor`).
pub fn scale_def(s: &Vec<char>, pos: usize) -> (r: Option<(ScaleDef, usize)>)
    requires
        pos <= s@.len() <= usize::MAX,
    ensures
        crate::ast::agrees(r, spec_scale_def(s@, pos)),
        r matches Some((sc, e)) ==> pos < e <= s@.len() && sc.intervals@.len() > 0,
{
    let (root, p1) = pitch_val(s, pos)?;
    let p2 = spaces_end(s, p1);
    if p2 == p1 {
        return None;
    }
    let (iv, p3) = scale_name(s, p2)?;
    Some((ScaleDef { root_pitch: root, intervals: iv }, p3))
}

/// `scale_def` surrounded by padding.
pub open spec fn spec_padded_scale_def(s: Seq<char>, pos: usize) -> Option<(SScale, usize)> {
    match spec_scale_def(s, spec_padding(s, pos)) {
        Some((sc, e)) => Some((sc, spec_padding(s, e))),
        None => None,
    }
}

fn padded_scale_def(s: &Vec<char>, pos: usize) -> (r: Option<(ScaleDef, usize)>)
    requires
        pos <= s@.len() <= usize::MAX,
    ensures
        crate::ast::agrees(r, spec_padded_scale_def(s@, pos)),
        r matches Some((sc, e)) ==> pos < e <= s@.len() && sc.intervals@.len() > 0,
{
    let p0 = padding(s, pos);
    let (sc, e) = scale_def(s, p0)?;
    Some((sc, padding(s, e)))
}

/// An optional `, n` with padding round `n`: `n`, or `1` when absent.
pub open spec fn spec_opt_cycles(s: Seq<char>, pos: usize) -> (usize, usize) {
    match spec_pad_char(s, pos, ',') {
        Some(p1) => match spec_int_usize(s, spec_padding(s, p1)) {
            Some((n, p2)) => (n, spec_padding(s, p2)),
            None => (1, pos),
        },
        None => (1, pos),
    }
}

fn opt_cycles(s: &Vec<char>, pos: usize) -> (r: (usize, usize))
    requires
        pos <= s@.len() <= usize::MAX,
    ensures
        r == spec_opt_cycles(s@, pos),
        pos <= r.1 <= s@.len(),
{
    match pad_char(s, pos, ',') {
        Some(p1) => {
            let q = padding(s, p1);
            match int_usize(s, q) {
                Some((n, p2)) => (n, padding(s, p2)),
                None => (1, pos),
            }
        },
        None => (1, pos),
    }
}

/// One `(start, end): scale` entry of an explicit scale sequence.
pub open spec fn spec_scale_item(s: Seq<char>, pos: usize) -> Option<((usize, usize, SScale), usize)> {
    match spec_pad_char(s, pos, '(') {
        Some(p1) => match spec_int_usize(s, p1) {
            Some((a, p2)) => match spec_pad_char(s, p2, ',') {
                Some(p3) => match spec_int_usize(s, p3) {
                    Some((b, p4)) => match spec_pad_char(s, p4, ')') {
                        Some(p5) => match spec_pad_char(s, p5, ':') {
                            Some(p6) => match spec_scale_def(s, p6) {
                                Some((sc, p7)) => Some(((a, b, sc), p7)),
                                None => None,
                            },
                            None => None,
                        },
                        None => None,
                    },
                    None => None,
                },
                None => None,
            },
            None => None,
        },
        None => None,
    }
}

fn scale_item(s: &Vec<char>, pos: usize) -> (r: Option<((usize, usize, ScaleDef), usize)>)
    requires
        pos <= s@.len() <= usize::MAX,
    ensures
        match r {
            Some(((a, b, sc), e)) => spec_scale_item(s@, pos) == Some(((a, b, sc@), e)),
            None => spec_scale_item(s@, pos) is None,
        },
        r matches Some((_, e)) ==> pos < e <= s@.len(),
{
    let p1 = pad_char(s, pos, '(')?;
    let (a, p2) = int_usize(s, p1)?;
    let p3 = pad_char(s, p2, ',')?;
    let (b, p4) = int_usize(s, p3)?;
    let p5 = pad_char(s, p4, ')')?;
    let p6 = pad_char(s, p5, ':')?;
    let (sc, p7) = scale_def(s, p6)?;
    Some(((a, b, sc), p7))
}

/// The entries after the first: `| entry` as long as both parts parse.
pub open spec fn spec_scale_items_rest(s: Seq<char>, pos: usize) -> (Seq<(usize, usize, SScale)>, usize)
    decreases s.len() - pos
    when pos <= s.len() && s.len() <= usize::MAX
{
    match spec_pad_char(s, pos, '|') {
        Some(p1) => match spec_scale_item(s, p1) {
            Some((it, p2)) => {
                proof {
                    lemma_pad_char_bounds(s, pos, '|');
                    lemma_scale_item(s, p1);
                }
                let (rest, p3) = spec_scale_items_rest(s, p2);
                (seq![it] + rest, p3)
            },
            None => (Seq::empty(), pos),
        },
        None => (Seq::empty(), pos),
    }
}

pub proof fn lemma_scale_item(s: Seq<char>, pos: usize)
    requires
        pos <= s.len() <= usize::MAX,
    ensures
        spec_scale_item(s, pos) matches Some((_, e)) ==> pos < e <= s.len(),
{
    lemma_pad_char_bounds(s, pos, '(');
    if let Some(p1) = spec_pad_char(s, pos, '(') {
        super::primitives::lemma_int_usize_bounds(s, p1);
        if let Some((a, p2)) = spec_int_usize(s, p1) {
            lemma_pad_char_bounds(s, p2, ',');
            if let Some(p3) = spec_pad_char(s, p2, ',') {
                super::primitives::lemma_int_usize_bounds(s, p3);
                if let Some((b, p4)) = spec_int_usize(s, p3) {
                    lemma_pad_char_bounds(s, p4, ')');
                    if let Some(p5) = spec_pad_char(s, p4, ')') {
                        lemma_pad_char_bounds(s, p5, ':');
                        if let Some(p6) = spec_pad_char(s, p5, ':') {
                            lemma_scale_def(s, p6);
                        }
                    }
                }
            }
        }
    }
}

pub open spec fn scale_items_view(v: Seq<(usize, usize, ScaleDef)>) -> Seq<(usize, usize, SScale)> {
    v.map_values(|e: (usize, usize, ScaleDef)| (e.0, e.1, e.2@))
}

/// An explicit scale sequence: `{ (start, end): scale | ... }`.
pub open spec fn spec_explicit_seq(s: Seq<char>, pos: usize) -> Option<(Seq<(usize, usize, SScale)>, usize)> {
    match spec_pad_char(s, pos, '{') {
        Some(p1) => {
            let (items, p2) = match spec_scale_item(s, p1) {
                Some((it, q)) => {
                    let (rest, q2) = spec_scale_items_rest(s, q);
                    (seq![it] + rest, q2)
                },
                None => (Seq::empty(), p1),
            };
            match spec_pad_char(s, p2, '}') {
                Some(p3) => Some((items, p3)),
                None => None,
            }
        },
        None => None,
    }
}

pub proof fn lemma_scale_items_rest(s: Seq<char>, pos: usize)
    requires
        pos <= s.len() <= usize::MAX,
    ensures
        pos <= spec_scale_items_rest(s, pos).1 <= s.len(),
    decreases s.len() - pos,
{
    lemma_pad_char_bounds(s, pos, '|');
    if let Some(p1) = spec_pad_char(s, pos, '|') {
        lemma_scale_item(s, p1);
        if let Some((it, p2)) = spec_scale_item(s, p1) {
            lemma_scale_items_rest(s, p2);
        }
    }
}

#[verifier::rlimit(60)]
fn explicit_seq(s: &Vec<char>, pos: usize) -> (r: Option<(Vec<(usize, usize, ScaleDef)>, usize)>)
    requires
        pos <= s@.len() <= usize::MAX,
    ensures
        match r {
            Some((v, e)) => spec_explicit_seq(s@, pos) == Some((scale_items_view(v@), e)),
            None => spec_explicit_seq(s@, pos) is None,
        },
        r matches Some((_, e)) ==> pos < e <= s@.len(),
{
    let p1 = pad_char(s, pos, '{')?;
    let mut items: Vec<(usize, usize, ScaleDef)> = Vec::new();
    let mut p = p1;
    let ghost mut target: Seq<(usize, usize, SScale)> = Seq::empty();
    match scale_item(s, p1) {
        Some((it, q)) => {
            proof {
                lemma_scale_items_rest(s@, q);
            }
            let ghost itv = (it.0, it.1, it.2@);
            items.push(it);
            p = q;
            proof {
                target = seq![itv] + spec_scale_items_rest(s@, q).0;
                assert(scale_items_view(items@) =~= seq![itv]);
            }
            loop
                invariant
                    p1 <= p <= s@.len() <= usize::MAX,
                    q <= s@.len(),
                    target == scale_items_view(items@) + spec_scale_items_rest(s@, p).0,
                    spec_scale_items_rest(s@, p).1 == spec_scale_items_rest(s@, q).1,
                ensures
                    p1 <= p <= s@.len() <= usize::MAX,
                    target == scale_items_view(items@) + spec_scale_items_rest(s@, p).0,
                    spec_scale_items_rest(s@, p).1 == spec_scale_items_rest(s@, q).1,
                    spec_scale_items_rest(s@, p).0 == Seq::<(usize, usize, SScale)>::empty(),
                    spec_scale_items_rest(s@, p).1 == p,
                decreases s@.len() - p,
            {
                let ghost oldp = p;
                match pad_char(s, p, '|') {
                    Some(p2) => match scale_item(s, p2) {
                        Some((it2, p3)) => {
                            proof {
                                assert(scale_items_view(items@.push(it2)) =~= scale_items_view(items@).push((it2.0, it2.1, it2.2@)));
                                let rr = spec_scale_items_rest(s@, p3).0;
                                assert(seq![(it2.0, it2.1, it2.2@)] + rr =~= spec_scale_items_rest(s@, oldp).0);
                                assert(scale_items_view(items@) + (seq![(it2.0, it2.1, it2.2@)] + rr) =~= scale_items_view(items@).push((it2.0, it2.1, it2.2@)) + rr);
                            }
                            items.push(it2);
                            p = p3;
                        },
                        None => break,
                    },
                    None => break,
                }
            }
            proof {
                assert(target =~= scale_items_view(items@));
            }
        },
        None => {
            assert(scale_items_view(items@) =~= Seq::<(usize, usize, SScale)>::empty());
        },
    }
    let p3 = pad_char(s, p, '}')?;
    Some((items, p3))
}

/// A scale sequence: `circle_of_fifths(scale[, n])`, `shift(scale, semitones[, n])`
/// or an explicit `{ (start, end): scale | ... }`.
pub open spec fn spec_scale_seq_def(s: Seq<char>, pos: usize) -> Option<(SScaleSeq, usize)> {
    let circle = match spec_kw(s, pos, seq!['c', 'i', 'r', 'c', 'l', 'e', '_', 'o', 'f', '_', 'f', 'i', 'f', 't', 'h', 's']) {
        Some(p1) => match spec_pad_char(s, p1, '(') {
            Some(p2) => match spec_padded_scale_def(s, p2) {
                Some((sc, p3)) => {
                    let (n, p4) = spec_opt_cycles(s, p3);
                    match spec_pad_char(s, p4, ')') {
                        Some(p5) => Some(
                            (SScaleSeq::Algorithmic { base_scale: sc, shift_semitones: 7, macro_cycles_per_step: n }, p5),
                        ),
                        None => None,
                    }
                },
                None => None,
            },
            None => None,
        },
        None => None,
    };
    let shift = match spec_kw(s, pos, seq!['s', 'h', 'i', 'f', 't']) {
        Some(p1) => match spec_pad_char(s, p1, '(') {
            Some(p2) => match spec_padded_scale_def(s, p2) {
                Some((sc, p3)) => match spec_pad_char(s, p3, ',') {
                    Some(p4) => match spec_int_i32(s, spec_padding(s, p4)) {
                        Some((st, p5)) => {
                            let (n, p6) = spec_opt_cycles(s, spec_padding(s, p5));
                            match spec_pad_char(s, p6, ')') {
                                Some(p7) => Some(
                                    (SScaleSeq::Algorithmic { base_scale: sc, shift_semitones: st, macro_cycles_per_step: n }, p7),
                                ),
                                None => None,
                            }
                        },
                        None => None,
                    },
                    None => None,
                },
                None => None,
            },
            None => None,
        },
        None => None,
    };
    if circle is Some {
        circle
    } else if shift is Some {
        shift
    } else {
        match spec_explicit_seq(s, pos) {
            Some((items, e)) => Some((SScaleSeq::Explicit(items), e)),
            None => None,
        }
    }
}

/// Parses a scale sequence.
pub fn scale_seq_def(s: &Vec<char>, pos: usize) -> (r: Option<(ScaleSequence, usize)>)
    requires
        pos <= s@.len() <= usize::MAX,
    ensures
        crate::ast::agrees(r, spec_scale_seq_def(s@, pos)),
        r matches Some((_, e)) ==> pos < e <= s@.len(),
{
    let w_circle = ['c', 'i', 'r', 'c', 'l', 'e', '_', 'o', 'f', '_', 'f', 'i', 'f', 't', 'h', 's'];
    let w_shift = ['s', 'h', 'i', 'f', 't'];
    assert(w_circle@ =~= seq!['c', 'i', 'r', 'c', 'l', 'e', '_', 'o', 'f', '_', 'f', 'i', 'f', 't', 'h', 's']);
    assert(w_shift@ =~= seq!['s', 'h', 'i', 'f', 't']);
    proof {
        lemma_kw_bounds(s@, pos, w_circle@);
        lemma_kw_bounds(s@, pos, w_shift@);
    }
    if let Some(p1) = kw(s, pos, &w_circle) {
        if let Some(p2) = pad_char(s, p1, '(') {
            if let Some((sc, p3)) = padded_scale_def(s, p2) {
                let (n, p4) = opt_cycles(s, p3);
                if let Some(p5) = pad_char(s, p4, ')') {
                    return Some(
                        (ScaleSequence::Algorithmic { base_scale: sc, shift_semitones: 7, macro_cycles_per_step: n }, p5),
                    );
                }
            }
        }
    }
    if let Some(p1) = kw(s, pos, &w_shift) {
        if let Some(p2) = pad_char(s, p1, '(') {
            if let Some((sc, p3)) = padded_scale_def(s, p2) {
                if let Some(p4) = pad_char(s, p3, ',') {
                    let q = padding(s, p4);
                    if let Some((st, p5)) = int_i32(s, q) {
                        let q5 = padding(s, p5);
                        let (n, p6) = opt_cycles(s, q5);
                        if let Some(p7) = pad_char(s, p6, ')') {
                            return Some(
                                (ScaleSequence::Algorithmic { base_scale: sc, shift_semitones: st, macro_cycles_per_step: n }, p7),
                            );
                        }
                    }
                }
            }
        }
    }
    let (items, e) = explicit_seq(s, pos)?;
    Some((ScaleSequence::Explicit(items), e))
}

/// The state that the global directives build up.
#[derive(Debug)]
pub struct Globals {
    pub bpm: Option<Decimal>,
    pub signature: Option<(u8, u8)>,
    pub quantize: Option<QuantizeMode>,
    pub scale: Option<ScaleDef>,
    pub scale_seq: Option<ScaleSequence>,
    pub global_silence: bool,
    pub includes: Vec<String>,
}

/// The view of the directive state.
pub struct SGlobals {
    pub bpm: Option<Decimal>,
    pub signature: Option<(u8, u8)>,
    pub quantize: Option<QuantizeMode>,
    pub scale: Option<SScale>,
    pub scale_seq: Option<SScaleSeq>,
    pub global_silence: bool,
    pub includes: Seq<Seq<char>>,
}

impl View for Globals {
    type V = SGlobals;

    open spec fn view(&self) -> SGlobals {
        SGlobals {
            bpm: self.bpm,
            signature: self.signature,
            quantize: self.quantize,
            scale: crate::ast::opt_scale_view(self.scale),
            scale_seq: match self.scale_seq {
                Some(q) => Some(q@),
                None => None,
            },
            global_silence: self.global_silence,
            includes: crate::ast::strings_view(self.includes@),
        }
    }
}

/// One directive, as read.
pub enum SDirective {
    Bpm(Decimal),
    Signature(u8, u8),
    Quantize(QuantizeMode),
    Scale(SScale),
    ScaleSeq(SScaleSeq),
    Silence,
    Include(Seq<char>),
}

/// A directive updates the state: the last of each kind wins, and includes accumulate.
pub open spec fn apply_directive(g: SGlobals, d: SDirective) -> SGlobals {
    match d {
        SDirective::Bpm(v) => SGlobals { bpm: Some(v), ..g },
        SDirective::Signature(n, m) => SGlobals { signature: Some((n, m)), ..g },
        SDirective::Quantize(q) => SGlobals { quantize: Some(q), ..g },
        SDirective::Scale(sc) => SGlobals { scale: Some(sc), ..g },
        SDirective::ScaleSeq(q) => SGlobals { scale_seq: Some(q), ..g },
        SDirective::Silence => SGlobals { global_silence: true, ..g },
        SDirective::Include(p) => SGlobals { includes: g.includes.push(p), ..g },
    }
}

pub open spec fn w_bpm() -> Seq<char> {
    seq!['#', 'B', 'P', 'M', '=']
}

pub open spec fn w_sig() -> Seq<char> {
    seq!['#', 'S', 'I', 'G', '=']
}

pub open spec fn w_quantize() -> Seq<char> {
    seq!['#', 'Q', 'U', 'A', 'N', 'T', 'I', 'Z', 'E', '=']
}

pub open spec fn w_scale() -> Seq<char> {
    seq!['#', 'S', 'C', 'A', 'L', 'E', '=']
}

pub open spec fn w_scale_seq() -> Seq<char> {
    seq!['#', 'S', 'C', 'A', 'L', 'E', '_', 'S', 'E', 'Q']
}

pub open spec fn w_silence() -> Seq<char> {
    seq!['#', 'S', 'I', 'L', 'E', 'N', 'C', 'E']
}

pub open spec fn w_include() -> Seq<char> {
    seq!['#', 'I', 'N', 'C', 'L', 'U', 'D', 'E']
}

/// The first position at or after `pos` that holds a `"`, or the end.
pub open spec fn spec_quote_end(s: Seq<char>, pos: usize) -> usize
    decreases s.len() - pos
    when pos <= s.len() && s.len() <= usize::MAX
{
    if pos < s.len() && s[pos as int] != '"' {
        spec_quote_end(s, (pos + 1) as usize)
    } else {
        pos
    }
}

pub proof fn lemma_quote_end(s: Seq<char>, pos: usize)
    requires
        pos <= s.len() <= usize::MAX,
    ensures
        pos <= spec_quote_end(s, pos) <= s.len(),
    decreases s.len() - pos,
{
    if pos < s.len() && s[pos as int] != '"' {
        lemma_quote_end(s, (pos + 1) as usize);
    }
}

fn quote_end(s: &Vec<char>, pos: usize) -> (r: usize)
    requires
        pos <= s@.len() <= usize::MAX,
    ensures
        r == spec_quote_end(s@, pos),
        pos <= r <= s@.len(),
{
    proof {
        lemma_quote_end(s@, pos);
    }
    let n = s.len();
    let mut p = pos;
    while p < n && s[p] != '"'
        invariant
            n == s@.len() <= usize::MAX,
            pos <= p <= n,
            spec_quote_end(s@, p) == spec_quote_end(s@, pos),
        decreases n - p,
    {
        p = p + 1;
    }
    p
}

pub open spec fn spec_dir_bpm(s: Seq<char>, pos: usize) -> Option<(SDirective, usize)> {
    match spec_lit(s, pos, w_bpm()) {
        Some(p1) => match spec_decimal(s, p1) {
            Some((v, p2)) => Some((SDirective::Bpm(v), p2)),
            None => None,
        },
        None => None,
    }
}

pub open spec fn spec_dir_sig(s: Seq<char>, pos: usize) -> Option<(SDirective, usize)> {
    match spec_lit(s, pos, w_sig()) {
        Some(p1) => match spec_int_u8(s, p1) {
            Some((a, p2)) => match spec_just(s, p2, '/') {
                Some(p3) => match spec_int_u8(s, p3) {
                    Some((b, p4)) => Some((SDirective::Signature(a, b), p4)),
                    None => None,
                },
                None => None,
            },
            None => None,
        },
        None => None,
    }
}

pub open spec fn spec_dir_quantize(s: Seq<char>, pos: usize) -> Option<(SDirective, usize)> {
    match spec_lit(s, pos, w_quantize()) {
        Some(p1) => match spec_lit(s, p1, seq!['a', 'u', 't', 'o']) {
            Some(p2) => Some((SDirective::Quantize(QuantizeMode::Auto), p2)),
            None => match spec_lit(s, p1, seq!['A', 'U', 'T', 'O']) {
                Some(p2) => Some((SDirective::Quantize(QuantizeMode::Auto), p2)),
                None => match spec_int_usize(s, p1) {
                    Some((n, p2)) => Some((SDirective::Quantize(QuantizeMode::Fixed(n)), p2)),
                    None => None,
                },
            },
        },
        None => None,
    }
}

pub open spec fn spec_dir_scale(s: Seq<char>, pos: usize) -> Option<(SDirective, usize)> {
    match spec_lit(s, pos, w_scale()) {
        Some(p1) => match spec_scale_def(s, p1) {
            Some((sc, p2)) => Some((SDirective::Scale(sc), p2)),
            None => None,
        },
        None => None,
    }
}

pub open spec fn spec_dir_scale_seq(s: Seq<char>, pos: usize) -> Option<(SDirective, usize)> {
    let head = match spec_lit(s, spec_padding(s, pos), w_scale_seq().push('=')) {
        Some(e) => Some(e),
        None => spec_lit(s, spec_padding(s, pos), w_scale_seq()),
    };
    match head {
        Some(e) => match spec_scale_seq_def(s, spec_padding(s, e)) {
            Some((q, p2)) => Some((SDirective::ScaleSeq(q), p2)),
            None => None,
        },
        None => None,
    }
}

pub open spec fn spec_dir_silence(s: Seq<char>, pos: usize) -> Option<(SDirective, usize)> {
    match spec_lit(s, pos, w_silence()) {
        Some(p1) => Some((SDirective::Silence, p1)),
        None => None,
    }
}

pub open spec fn spec_dir_include(s: Seq<char>, pos: usize) -> Option<(SDirective, usize)> {
    match spec_lit(s, spec_padding(s, pos), w_include()) {
        Some(p1) => {
            let p2 = spec_padding(s, p1);
            match spec_just(s, p2, '"') {
                Some(p3) => {
                    let p4 = spec_quote_end(s, p3);
                    match spec_just(s, p4, '"') {
                        Some(p5) => Some((SDirective::Include(s.subrange(p3 as int, p4 as int)), p5)),
                        None => None,
                    }
                },
                None => None,
            }
        },
        None => None,
    }
}

/// One global directive: `#BPM=`, `#SIG=`, `#QUANTIZE=`, `#SCALE=`,
/// `#SCALE_SEQ`, `#SILENCE` or `#INCLUDE "path"`, tried in that order.
pub open spec fn spec_directive(s: Seq<char>, pos: usize) -> Option<(SDirective, usize)> {
    if spec_dir_bpm(s, pos) is Some {
        spec_dir_bpm(s, pos)
    } else if spec_dir_sig(s, pos) is Some {
        spec_dir_sig(s, pos)
    } else if spec_dir_quantize(s, pos) is Some {
        spec_dir_quantize(s, pos)
    } else if spec_dir_scale(s, pos) is Some {
        spec_dir_scale(s, pos)
    } else if spec_dir_scale_seq(s, pos) is Some {
        spec_dir_scale_seq(s, pos)
    } else if spec_dir_silence(s, pos) is Some {
        spec_dir_silence(s, pos)
    } else {
        spec_dir_include(s, pos)
    }
}

pub proof fn lemma_dir_bpm(s: Seq<char>, pos: usize)
    requires
        pos <= s.len() <= usize::MAX,
    ensures
        spec_dir_bpm(s, pos) matches Some((_, e)) ==> pos < e <= s.len(),
{
    if let Some(p1) = spec_lit(s, pos, w_bpm()) {
        super::primitives::lemma_decimal_bounds(s, p1);
    }
}

pub proof fn lemma_dir_sig(s: Seq<char>, pos: usize)
    requires
        pos <= s.len() <= usize::MAX,
    ensures
        spec_dir_sig(s, pos) matches Some((_, e)) ==> pos < e <= s.len(),
{
    if let Some(p1) = spec_lit(s, pos, w_sig()) {
        super::primitives::lemma_int_u8_bounds(s, p1);
        if let Some((a, p2)) = spec_int_u8(s, p1) {
            if let Some(p3) = spec_just(s, p2, '/') {
                super::primitives::lemma_int_u8_bounds(s, p3);
            }
        }
    }
}

pub proof fn lemma_dir_quantize(s: Seq<char>, pos: usize)
    requires
        pos <= s.len() <= usize::MAX,
    ensures
        spec_dir_quantize(s, pos) matches Some((_, e)) ==> pos < e <= s.len(),
{
    if let Some(p1) = spec_lit(s, pos, w_quantize()) {
        super::primitives::lemma_int_usize_bounds(s, p1);
    }
}

pub proof fn lemma_dir_scale(s: Seq<char>, pos: usize)
    requires
        pos <= s.len() <= usize::MAX,
    ensures
        spec_dir_scale(s, pos) matches Some((_, e)) ==> pos < e <= s.len(),
{
    if let Some(p1) = spec_lit(s, pos, w_scale()) {
        lemma_scale_def(s, p1);
    }
}

pub proof fn lemma_dir_scale_seq(s: Seq<char>, pos: usize)
    requires
        pos <= s.len() <= usize::MAX,
    ensures
        spec_dir_scale_seq(s, pos) matches Some((_, e)) ==> pos < e <= s.len(),
{
    lemma_padding_bounds(s, pos);
    let p0 = spec_padding(s, pos);
    if let Some(e) = spec_lit(s, p0, w_scale_seq()) {
        lemma_padding_bounds(s, e);
        lemma_scale_seq_def(s, spec_padding(s, e));
    }
    if let Some(e) = spec_lit(s, p0, w_scale_seq().push('=')) {
        lemma_padding_bounds(s, e);
        lemma_scale_seq_def(s, spec_padding(s, e));
    }
}

pub proof fn lemma_dir_include(s: Seq<char>, pos: usize)
    requires
        pos <= s.len() <= usize::MAX,
    ensures
        spec_dir_include(s, pos) matches Some((_, e)) ==> pos < e <= s.len(),
{
    lemma_padding_bounds(s, pos);
    let p0 = spec_padding(s, pos);
    if let Some(p1) = spec_lit(s, p0, w_include()) {
        lemma_padding_bounds(s, p1);
        let p2 = spec_padding(s, p1);
        if let Some(p3) = spec_just(s, p2, '"') {
            lemma_quote_end(s, p3);
        }
    }
}

pub proof fn lemma_directive(s: Seq<char>, pos: usize)
    requires
        pos <= s.len() <= usize::MAX,
    ensures
        spec_directive(s, pos) matches Some((_, e)) ==> pos < e <= s.len(),
{
    lemma_dir_bpm(s, pos);
    lemma_dir_sig(s, pos);
    lemma_dir_quantize(s, pos);
    lemma_dir_scale(s, pos);
    lemma_dir_scale_seq(s, pos);
    lemma_dir_include(s, pos);
}

pub proof fn lemma_scale_seq_def(s: Seq<char>, pos: usize)
    requires
        pos <= s.len() <= usize::MAX,
    ensures
        spec_scale_seq_def(s, pos) matches Some((_, e)) ==> pos < e <= s.len(),
{
    lemma_pad_char_bounds(s, pos, '{');
    if let Some(p1) = spec_pad_char(s, pos, '{') {
        lemma_scale_item(s, p1);
        if let Some((it, q)) = spec_scale_item(s, p1) {
            lemma_scale_items_rest(s, q);
            lemma_pad_char_bounds(s, spec_scale_items_rest(s, q).1, '}');
        } else {
            lemma_pad_char_bounds(s, p1, '}');
        }
    }
    let wc = seq!['c', 'i', 'r', 'c', 'l', 'e', '_', 'o', 'f', '_', 'f', 'i', 'f', 't', 'h', 's'];
    let wsh = seq!['s', 'h', 'i', 'f', 't'];
    lemma_kw_bounds(s, pos, wc);
    lemma_kw_bounds(s, pos, wsh);
    if let Some(p1) = spec_kw(s, pos, wc) {
        lemma_pad_char_bounds(s, p1, '(');
        if let Some(p2) = spec_pad_char(s, p1, '(') {
            lemma_padded_scale_def(s, p2);
            if let Some((sc, p3)) = spec_padded_scale_def(s, p2) {
                lemma_opt_cycles(s, p3);
                lemma_pad_char_bounds(s, spec_opt_cycles(s, p3).1, ')');
            }
        }
    }
    if let Some(p1) = spec_kw(s, pos, wsh) {
        lemma_pad_char_bounds(s, p1, '(');
        if let Some(p2) = spec_pad_char(s, p1, '(') {
            lemma_padded_scale_def(s, p2);
            if let Some((sc, p3)) = spec_padded_scale_def(s, p2) {
                lemma_pad_char_bounds(s, p3, ',');
                if let Some(p4) = spec_pad_char(s, p3, ',') {
                    lemma_padding_bounds(s, p4);
                    super::primitives::lemma_int_i32_bounds(s, spec_padding(s, p4));
                    if let Some((st, p5)) = spec_int_i32(s, spec_padding(s, p4)) {
                        lemma_padding_bounds(s, p5);
                        lemma_opt_cycles(s, spec_padding(s, p5));
                        lemma_pad_char_bounds(s, spec_opt_cycles(s, spec_padding(s, p5)).1, ')');
                    }
                }
            }
        }
    }
}

pub proof fn lemma_padded_scale_def(s: Seq<char>, pos: usize)
    requires
        pos <= s.len() <= usize::MAX,
    ensures
        spec_padded_scale_def(s, pos) matches Some((_, e)) ==> pos < e <= s.len(),
{
    lemma_padding_bounds(s, pos);
    lemma_scale_def(s, spec_padding(s, pos));
    if let Some((sc, e)) = spec_scale_def(s, spec_padding(s, pos)) {
        lemma_padding_bounds(s, e);
    }
}

pub proof fn lemma_opt_cycles(s: Seq<char>, pos: usize)
    requires
        pos <= s.len() <= usize::MAX,
    ensures
        pos <= spec_opt_cycles(s, pos).1 <= s.len(),
{
    lemma_pad_char_bounds(s, pos, ',');
    if let Some(p1) = spec_pad_char(s, pos, ',') {
        lemma_padding_bounds(s, p1);
        super::primitives::lemma_int_usize_bounds(s, spec_padding(s, p1));
        if let Some((n, p2)) = spec_int_usize(s, spec_padding(s, p1)) {
            lemma_padding_bounds(s, p2);
        }
    }
}

/// The exec form of one directive.
pub enum Directive {
    Bpm(Decimal),
    Signature(u8, u8),
    Quantize(QuantizeMode),
    Scale(ScaleDef),
    ScaleSeq(ScaleSequence),
    Silence,
    Include(String),
}

impl View for Directive {
    type V = SDirective;

    open spec fn view(&self) -> SDirective {
        match self {
            Directive::Bpm(v) => SDirective::Bpm(*v),
            Directive::Signature(a, b) => SDirective::Signature(*a, *b),
            Directive::Quantize(q) => SDirective::Quantize(*q),
            Directive::Scale(sc) => SDirective::Scale(sc@),
            Directive::ScaleSeq(q) => SDirective::ScaleSeq(q@),
            Directive::Silence => SDirective::Silence,
            Directive::Include(p) => SDirective::Include(p@),
        }
    }
}

fn dir_bpm(s: &Vec<char>, pos: usize) -> (r: Option<(Directive, usize)>)
    requires
        pos <= s@.len() <= usize::MAX,
    ensures
        crate::ast::agrees(r, spec_dir_bpm(s@, pos)),
{
    let w = ['#', 'B', 'P', 'M', '='];
    assert(w@ =~= w_bpm());
    let p1 = lit(s, pos, &w)?;
    let (v, p2) = float_f64(s, p1)?;
    Some((Directive::Bpm(v), p2))
}

fn dir_sig(s: &Vec<char>, pos: usize) -> (r: Option<(Directive, usize)>)
    requires
        pos <= s@.len() <= usize::MAX,
    ensures
        crate::ast::agrees(r, spec_dir_sig(s@, pos)),
{
    let w = ['#', 'S', 'I', 'G', '='];
    assert(w@ =~= w_sig());
    let p1 = lit(s, pos, &w)?;
    let (a, p2) = int_u8(s, p1)?;
    let p3 = just(s, p2, '/')?;
    let (b, p4) = int_u8(s, p3)?;
    Some((Directive::Signature(a, b), p4))
}

fn dir_quantize(s: &Vec<char>, pos: usize) -> (r: Option<(Directive, usize)>)
    requires
        pos <= s@.len() <= usize::MAX,
    ensures
        crate::ast::agrees(r, spec_dir_quantize(s@, pos)),
{
    let w = ['#', 'Q', 'U', 'A', 'N', 'T', 'I', 'Z', 'E', '='];
    let wa = ['a', 'u', 't', 'o'];
    let wb = ['A', 'U', 'T', 'O'];
    assert(w@ =~= w_quantize());
    assert(wa@ =~= seq!['a', 'u', 't', 'o']);
    assert(wb@ =~= seq!['A', 'U', 'T', 'O']);
    let p1 = lit(s, pos, &w)?;
    if let Some(p2) = lit(s, p1, &wa) {
        return Some((Directive::Quantize(QuantizeMode::Auto), p2));
    }
    if let Some(p2) = lit(s, p1, &wb) {
        return Some((Directive::Quantize(QuantizeMode::Auto), p2));
    }
    let (n, p2) = int_usize(s, p1)?;
    Some((Directive::Quantize(QuantizeMode::Fixed(n)), p2))
}

fn dir_scale(s: &Vec<char>, pos: usize) -> (r: Option<(Directive, usize)>)
    requires
        pos <= s@.len() <= usize::MAX,
    ensures
        crate::ast::agrees(r, spec_dir_scale(s@, pos)),
{
    let w = ['#', 'S', 'C', 'A', 'L', 'E', '='];
    assert(w@ =~= w_scale());
    let p1 = lit(s, pos, &w)?;
    let (sc, p2) = scale_def(s, p1)?;
    Some((Directive::Scale(sc), p2))
}

fn dir_scale_seq(s: &Vec<char>, pos: usize) -> (r: Option<(Directive, usize)>)
    requires
        pos <= s@.len() <= usize::MAX,
    ensures
        crate::ast::agrees(r, spec_dir_scale_seq(s@, pos)),
{
    let wa = ['#', 'S', 'C', 'A', 'L', 'E', '_', 'S', 'E', 'Q', '='];
    let wb = ['#', 'S', 'C', 'A', 'L', 'E', '_', 'S', 'E', 'Q'];
    assert(wa@ =~= w_scale_seq().push('='));
    assert(wb@ =~= w_scale_seq());
    let p0 = padding(s, pos);
    let e = match lit(s, p0, &wa) {
        Some(e) => e,
        None => lit(s, p0, &wb)?,
    };
    let q = padding(s, e);
    let (sq, p2) = scale_seq_def(s, q)?;
    Some((Directive::ScaleSeq(sq), p2))
}

fn dir_silence(s: &Vec<char>, pos: usize) -> (r: Option<(Directive, usize)>)
    requires
        pos <= s@.len() <= usize::MAX,
    ensures
        crate::ast::agrees(r, spec_dir_silence(s@, pos)),
{
    let w = ['#', 'S', 'I', 'L', 'E', 'N', 'C', 'E'];
    assert(w@ =~= w_silence());
    let p1 = lit(s, pos, &w)?;
    Some((Directive::Silence, p1))
}

fn dir_include(s: &Vec<char>, pos: usize) -> (r: Option<(Directive, usize)>)
    requires
        pos <= s@.len() <= usize::MAX,
    ensures
        crate::ast::agrees(r, spec_dir_include(s@, pos)),
{
    let w = ['#', 'I', 'N', 'C', 'L', 'U', 'D', 'E'];
    assert(w@ =~= w_include());
    let p0 = padding(s, pos);
    let p1 = lit(s, p0, &w)?;
    let p2 = padding(s, p1);
    let p3 = just(s, p2, '"')?;
    let p4 = quote_end(s, p3);
    let p5 = just(s, p4, '"')?;
    Some((Directive::Include(substring(s, p3, p4)), p5))
}

fn directive(s: &Vec<char>, pos: usize) -> (r: Option<(Directive, usize)>)
    requires
        pos <= s@.len() <= usize::MAX,
    ensures
        crate::ast::agrees(r, spec_directive(s@, pos)),
        r matches Some((_, e)) ==> pos < e <= s@.len(),
{
    proof {
        lemma_directive(s@, pos);
    }
    if let Some(x) = dir_bpm(s, pos) {
        return Some(x);
    }
    if let Some(x) = dir_sig(s, pos) {
        return Some(x);
    }
    if let Some(x) = dir_quantize(s, pos) {
        return Some(x);
    }
    if let Some(x) = dir_scale(s, pos) {
        return Some(x);
    }
    if let Some(x) = dir_scale_seq(s, pos) {
        return Some(x);
    }
    if let Some(x) = dir_silence(s, pos) {
        return Some(x);
    }
    dir_include(s, pos)
}

/// Directives with padding round each, applied in order to `g`.
pub open spec fn spec_directives_from(s: Seq<char>, pos: usize, g: SGlobals) -> (SGlobals, usize)
    decreases s.len() - pos
    when pos <= s.len() && s.len() <= usize::MAX
{
    let p0 = spec_padding(s, pos);
    match spec_directive(s, p0) {
        Some((d, p1)) => {
            proof {
                lemma_padding_bounds(s, pos);
                lemma_directive(s, p0);
                lemma_padding_bounds(s, p1);
            }
            spec_directives_from(s, spec_padding(s, p1), apply_directive(g, d))
        },
        None => (g, pos),
    }
}

/// The state before any directive.
pub open spec fn no_globals() -> SGlobals {
    SGlobals {
        bpm: None,
        signature: None,
        quantize: None,
        scale: None,
        scale_seq: None,
        global_silence: false,
        includes: Seq::empty(),
    }
}

pub open spec fn spec_global_directives(s: Seq<char>, pos: usize) -> (SGlobals, usize) {
    spec_directives_from(s, pos, no_globals())
}

/// Reads the global directives that start at `pos`.
pub fn global_directives(s: &Vec<char>, pos: usize) -> (r: (Globals, usize))
    requires
        pos <= s@.len() <= usize::MAX,
    ensures
        r.0@ == spec_global_directives(s@, pos).0,
        r.1 == spec_global_directives(s@, pos).1,
        pos <= r.1 <= s@.len(),
{
    let mut g = Globals {
        bpm: None,
        signature: None,
        quantize: None,
        scale: None,
        scale_seq: None,
        global_silence: false,
        includes: Vec::new(),
    };
    let mut p = pos;
    proof {
        assert(g@ == no_globals()) by {
            assert(crate::ast::strings_view(g.includes@) =~= Seq::<Seq<char>>::empty());
        }
    }
    loop
        invariant
            pos <= p <= s@.len() <= usize::MAX,
            spec_directives_from(s@, p, g@) == spec_global_directives(s@, pos),
        decreases s@.len() - p,
    {
        let p0 = padding(s, p);
        match directive(s, p0) {
            Some((d, p1)) => {
                let ghost gv = g@;
                let ghost dv = d@;
                match d {
                    Directive::Bpm(v) => g.bpm = Some(v),
                    Directive::Signature(a, b) => g.signature = Some((a, b)),
                    Directive::Quantize(q) => g.quantize = Some(q),
                    Directive::Scale(sc) => g.scale = Some(sc),
                    Directive::ScaleSeq(q) => g.scale_seq = Some(q),
                    Directive::Silence => g.global_silence = true,
                    Directive::Include(path) => {
                        let ghost old_inc = g.includes@;
                        g.includes.push(path);
                        proof {
                            assert(crate::ast::strings_view(g.includes@) =~= crate::ast::strings_view(old_inc).push(dv->Include_0));
                        }
                    },
                }
                proof {
                    assert(g@ == apply_directive(gv, dv));
                }
                p = padding(s, p1);
            },
            None => {
                return (g, p);
            },
        }
    }
}

} // verus!

//! Leaves of the expression grammar: notes, diatonic chords and controller changes.
use vstd::prelude::*;
use crate::ast::{lemma_nodes_view_empty, lemma_nodes_view_push, nodes_view, Decimal, DynamicValue, Node, Pitch, SNode};
use super::primitives::{
    first_lit, float_f64, int_i32, int_u8, just, lemma_first_lit, lit, pad_char, padding, pitch_val,
    spec_decimal, spec_first_lit, spec_int_i32, spec_int_u8, spec_just, spec_lit, spec_pad_char,
    spec_padding, spec_pitch_val,
};

verus! {

/// The words that name a diatonic chord, in the order in which they are tried.
pub open spec fn chord_words() -> Seq<Seq<char>> {
    seq![
        seq!['t', 'r', 'i', 'a', 'd'], seq!['t'], seq!['7', 't', 'h'], seq!['7'], seq!['9', 't', 'h'],
        seq!['9'], seq!['s', 'u', 's', '2'], seq!['s', 'u', 's', '4'], seq!['m'], seq!['m', 'a', 'j'],
    ]
}

/// The scale-degree offsets that each chord word names.
pub open spec fn chord_intervals(k: int) -> Seq<i32> {
    if k == 0 || k == 1 {
        seq![0i32, 2, 4]
    } else if k == 2 || k == 3 {
        seq![0i32, 2, 4, 6]
    } else if k == 4 || k == 5 {
        seq![0i32, 2, 4, 6, 8]
    } else if k == 6 {
        seq![0i32, 1, 4]
    } else if k == 7 {
        seq![0i32, 3, 4]
    } else if k == 8 {
        seq![0i32, 3, 7]
    } else {
        seq![0i32, 4, 7]
    }
}

pub open spec fn spec_diatonic_chord_type(s: Seq<char>, pos: usize) -> Option<(Seq<i32>, usize)> {
    match spec_first_lit(s, pos, chord_words(), 0) {
        Some((k, e)) => Some((chord_intervals(k), e)),
        None => None,
    }
}

/// Reads a diatonic chord name (`triad`, `7th`, `sus2`, ...) as its degree offsets.
pub fn diatonic_chord_type(s: &Vec<char>, pos: usize) -> (r: Option<(Vec<i32>, usize)>)
    requires
        pos <= s@.len() <= usize::MAX,
    ensures
        match r {
            Some((v, e)) => spec_diatonic_chord_type(s@, pos) == Some((v@, e)),
            None => spec_diatonic_chord_type(s@, pos) is None,
        },
        r matches Some((_, e)) ==> pos <= e <= s@.len(),
{
    let words: [&[char]; 10] = [
        &['t', 'r', 'i', 'a', 'd'], &['t'], &['7', 't', 'h'], &['7'], &['9', 't', 'h'], &['9'],
        &['s', 'u', 's', '2'], &['s', 'u', 's', '4'], &['m'], &['m', 'a', 'j'],
    ];
    proof {
        let ws = words@.map_values(|w: &[char]| w@);
        assert(ws[0] =~= chord_words()[0]);
        assert(ws[1] =~= chord_words()[1]);
        assert(ws[2] =~= chord_words()[2]);
        assert(ws[3] =~= chord_words()[3]);
        assert(ws[4] =~= chord_words()[4]);
        assert(ws[5] =~= chord_words()[5]);
        assert(ws[6] =~= chord_words()[6]);
        assert(ws[7] =~= chord_words()[7]);
        assert(ws[8] =~= chord_words()[8]);
        assert(ws[9] =~= chord_words()[9]);
        assert(ws =~= chord_words());
    }
    match first_lit(s, pos, &words) {
        Some((k, e)) => {
            let v: Vec<i32> = if k <= 1 {
                vec![0, 2, 4]
            } else if k <= 3 {
                vec![0, 2, 4, 6]
            } else if k <= 5 {
                vec![0, 2, 4, 6, 8]
            } else if k == 6 {
                vec![0, 1, 4]
            } else if k == 7 {
                vec![0, 3, 4]
            } else if k == 8 {
                vec![0, 3, 7]
            } else {
                vec![0, 4, 7]
            };
            assert(v@ =~= chord_intervals(k as int));
            Some((v, e))
        },
        None => None,
    }
}

/// The sum of the accidentals (`#` is +1, `b` is -1) that start at `pos`, and their end.
pub open spec fn spec_accidentals(s: Seq<char>, pos: usize) -> (int, usize)
    decreases s.len() - pos
    when pos <= s.len() && s.len() <= usize::MAX
{
    if pos < s.len() && s[pos as int] == '#' {
        let (a, e) = spec_accidentals(s, (pos + 1) as usize);
        (a + 1, e)
    } else if pos < s.len() && s[pos as int] == 'b' {
        let (a, e) = spec_accidentals(s, (pos + 1) as usize);
        (a - 1, e)
    } else {
        (0, pos)
    }
}

pub proof fn lemma_accidentals(s: Seq<char>, pos: usize)
    requires
        pos <= s.len() <= usize::MAX,
    ensures
        pos <= spec_accidentals(s, pos).1 <= s.len(),
        -(spec_accidentals(s, pos).1 - pos) <= spec_accidentals(s, pos).0 <= spec_accidentals(s, pos).1 - pos,
    decreases s.len() - pos,
{
    if pos < s.len() && (s[pos as int] == '#' || s[pos as int] == 'b') {
        lemma_accidentals(s, (pos + 1) as usize);
    }
}

fn accidentals(s: &Vec<char>, pos: usize) -> (r: (i128, usize))
    requires
        pos <= s@.len() <= usize::MAX,
    ensures
        r.0 == spec_accidentals(s@, pos).0,
        r.1 == spec_accidentals(s@, pos).1,
{
    proof {
        lemma_accidentals(s@, pos);
    }
    let n = s.len();
    let mut sum: i128 = 0;
    let mut p = pos;
    while p < n && (s[p] == '#' || s[p] == 'b')
        invariant
            n == s@.len() <= usize::MAX,
            pos <= p <= n,
            -(p - pos) <= sum <= p - pos,
            sum + spec_accidentals(s@, p).0 == spec_accidentals(s@, pos).0,
            spec_accidentals(s@, p).1 == spec_accidentals(s@, pos).1,
        decreases n - p,
    {
        if s[p] == '#' {
            sum = sum + 1;
        } else {
            sum = sum - 1;
        }
        p = p + 1;
    }
    (sum, p)
}

/// The notes of a diatonic chord on degree `d` with accidental `a`.
pub open spec fn chord_notes(d: int, a: int, ivs: Seq<i32>) -> Seq<SNode> {
    Seq::new(
        ivs.len(),
        |i: int| SNode::Note { pitch: Pitch::Numeric((d + ivs[i]) as i32, a as i32), velocity: 100, gate: 100 },
    )
}

pub open spec fn fits_i32(x: int) -> bool {
    i32::MIN <= x <= i32::MAX
}

/// One note: a scale degree with accidentals (`2`, `-1b`), or a note name
/// with its octave (`C4`, `F#3`). Notes get velocity 100 and gate 100.
pub open spec fn spec_one_note(s: Seq<char>, pos: usize) -> Option<(SNode, usize)> {
    match spec_int_i32(s, pos) {
        Some((d, p1)) => {
            let (a, p2) = spec_accidentals(s, p1);
            if !fits_i32(a) {
                None
            } else {
                Some((SNode::Note { pitch: Pitch::Numeric(d, a as i32), velocity: 100, gate: 100 }, p2))
            }
        },
        None => match spec_pitch_val(s, pos) {
            Some((m, e)) => Some((SNode::Note { pitch: Pitch::Absolute(m), velocity: 100, gate: 100 }, e)),
            None => None,
        },
    }
}

/// Further notes linked to `acc` with `+` (`0+2+4`, `C4+E4`).
pub open spec fn spec_linked(s: Seq<char>, pos: usize, acc: Seq<SNode>) -> (Seq<SNode>, usize)
    decreases s.len() - pos,
{
    if pos < s.len() && s[pos as int] == '+' {
        match spec_one_note(s, (pos + 1) as usize) {
            Some((n, e)) => if pos < e <= s.len() {
                spec_linked(s, e, acc.push(n))
            } else {
                (acc, pos)
            },
            None => (acc, pos),
        }
    } else {
        (acc, pos)
    }
}

/// A note, notes linked with `+` into a chord, or a diatonic chord on a
/// degree (`0'triad`, `3#'7th`).
pub open spec fn spec_chord_or_note(s: Seq<char>, pos: usize) -> Option<(SNode, usize)> {
    let named = match spec_int_i32(s, pos) {
        Some((d, p1)) => {
            let (a, p2) = spec_accidentals(s, p1);
            if !fits_i32(a) {
                None
            } else {
                match spec_just(s, p2, '\'') {
                    Some(p3) => match spec_diatonic_chord_type(s, p3) {
                        Some((ivs, p4)) => if forall|i: int| 0 <= i < ivs.len() ==> fits_i32(d + ivs[i]) {
                            Some((SNode::Chord(chord_notes(d as int, a, ivs)), p4))
                        } else {
                            None
                        },
                        None => None,
                    },
                    None => None,
                }
            }
        },
        None => None,
    };
    match named {
        Some(x) => Some(x),
        None => match spec_one_note(s, pos) {
            Some((n, p1)) => {
                let (ns, e) = spec_linked(s, p1, seq![n]);
                if ns.len() == 1 {
                    Some((n, p1))
                } else {
                    Some((SNode::Chord(ns), e))
                }
            },
            None => None,
        },
    }
}

/// Parses one note.
fn one_note(s: &Vec<char>, pos: usize) -> (r: Option<(Node, usize)>)
    requires
        pos <= s@.len() <= usize::MAX,
    ensures
        crate::ast::agrees(r, spec_one_note(s@, pos)),
        r matches Some((_, e)) ==> pos < e <= s@.len(),
{
    match int_i32(s, pos) {
        Some((d, p1)) => {
            let (a, p2) = accidentals(s, p1);
            proof {
                lemma_accidentals(s@, p1);
            }
            if a < i32::MIN as i128 || a > i32::MAX as i128 {
                return None;
            }
            Some((Node::Note { pitch: Pitch::Numeric(d, a as i32), velocity: 100, gate: 100 }, p2))
        },
        None => match pitch_val(s, pos) {
            Some((m, e)) => Some((Node::Note { pitch: Pitch::Absolute(m), velocity: 100, gate: 100 }, e)),
            None => None,
        },
    }
}

/// Parses the notes linked with `+` after those in `acc`.
fn linked(s: &Vec<char>, pos: usize, acc: Vec<Node>) -> (r: (Vec<Node>, usize))
    requires
        pos <= s@.len() <= usize::MAX,
    ensures
        (nodes_view(r.0@), r.1) == spec_linked(s@, pos, nodes_view(acc@)),
        pos <= r.1 <= s@.len(),
    decreases s@.len() - pos,
{
    if pos < s.len() && s[pos] == '+' {
        match one_note(s, pos + 1) {
            Some((n, e)) => {
                let mut acc = acc;
                proof {
                    lemma_nodes_view_push(acc@, n);
                }
                acc.push(n);
                linked(s, e, acc)
            },
            None => (acc, pos),
        }
    } else {
        (acc, pos)
    }
}

/// Parses a note, linked notes or a diatonic chord.
pub fn chord_or_note(s: &Vec<char>, pos: usize) -> (r: Option<(Node, usize)>)
    requires
        pos <= s@.len() <= usize::MAX,
    ensures
        crate::ast::agrees(r, spec_chord_or_note(s@, pos)),
        r matches Some((_, e)) ==> pos < e <= s@.len(),
{
    if let Some(x) = diatonic_chord(s, pos) {
        return Some(x);
    }
    let (n, p1) = match one_note(s, pos) {
        Some(x) => x,
        None => return None,
    };
    let n2 = crate::ast::clone_node(&n);
    let mut first: Vec<Node> = Vec::new();
    proof {
        lemma_nodes_view_empty();
        lemma_nodes_view_push(first@, n2);
    }
    first.push(n2);
    assert(nodes_view(first@) =~= seq![n@]);
    let (ns, e) = linked(s, p1, first);
    if ns.len() == 1 {
        Some((n, p1))
    } else {
        Some((Node::Chord(ns), e))
    }
}

/// Parses a diatonic chord on a degree.
fn diatonic_chord(s: &Vec<char>, pos: usize) -> (r: Option<(Node, usize)>)
    requires
        pos <= s@.len() <= usize::MAX,
    ensures
        crate::ast::agrees(r, match spec_int_i32(s@, pos) {
            Some((d, p1)) => {
                let (a, p2) = spec_accidentals(s@, p1);
                if !fits_i32(a) {
                    None
                } else {
                    match spec_just(s@, p2, '\'') {
                        Some(p3) => match spec_diatonic_chord_type(s@, p3) {
                            Some((ivs, p4)) => if forall|i: int| 0 <= i < ivs.len() ==> fits_i32(d + ivs[i]) {
                                Some((SNode::Chord(chord_notes(d as int, a, ivs)), p4))
                            } else {
                                None
                            },
                            None => None,
                        },
                        None => None,
                    }
                }
            },
            None => None,
        }),
        r matches Some((_, e)) ==> pos < e <= s@.len(),
{
    let (d, p1) = match int_i32(s, pos) {
        Some(x) => x,
        None => return None,
    };
    let (a, p2) = accidentals(s, p1);
    proof {
        lemma_accidentals(s@, p1);
    }
    if a < i32::MIN as i128 || a > i32::MAX as i128 {
        return None;
    }
    let a32 = a as i32;
    if let Some(p3) = just(s, p2, '\'') {
        if let Some((ivs, p4)) = diatonic_chord_type(s, p3) {
            let mut notes: Vec<Node> = Vec::new();
            let mut i: usize = 0;
            let mut ok = true;
            proof {
                lemma_nodes_view_empty();
            }
            while i < ivs.len()
                invariant
                    0 <= i <= ivs@.len(),
                    ok ==> nodes_view(notes@) == chord_notes(d as int, a as int, ivs@).take(i as int),
                    ok ==> forall|k: int| 0 <= k < i ==> fits_i32(d + ivs@[k]),
                    !ok ==> exists|k: int| 0 <= k < ivs@.len() && !fits_i32(d + ivs@[k]),
                    a32 == a,
                decreases ivs.len() - i,
            {
                let x: i64 = d as i64 + ivs[i] as i64;
                if x < i32::MIN as i64 || x > i32::MAX as i64 {
                    ok = false;
                    assert(!fits_i32(d + ivs@[i as int]));
                } else if ok {
                    let nd = Node::Note { pitch: Pitch::Numeric(x as i32, a32), velocity: 100, gate: 100 };
                    proof {
                        lemma_nodes_view_push(notes@, nd);
                        assert(chord_notes(d as int, a as int, ivs@).take(i + 1) =~= chord_notes(
                            d as int,
                            a as int,
                            ivs@,
                        ).take(i as int).push(nd@));
                    }
                    notes.push(nd);
                }
                i += 1;
            }
            if ok {
                assert(chord_notes(d as int, a as int, ivs@).take(ivs@.len() as int) =~= chord_notes(
                    d as int,
                    a as int,
                    ivs@,
                ));
                return Some((Node::Chord(notes), p4));
            }
        }
    }
    None
}

/// The oscillator words, in the order in which they are tried.
pub open spec fn lfo_words() -> Seq<Seq<char>> {
    seq![seq!['s', 'i', 'n', 'e'], seq!['s', 'a', 'w'], seq!['t', 'r', 'i']]
}

/// The default oscillator speed, one cycle per bar.
pub open spec fn decimal_one() -> Decimal {
    Decimal { negative: false, mantissa: 1, scale: 0 }
}

/// `(min, max[, speed])` after an oscillator word.
pub open spec fn spec_lfo_args(s: Seq<char>, pos: usize) -> Option<(u8, u8, Decimal, usize)> {
    match spec_pad_char(s, pos, '(') {
        Some(p1) => match spec_int_u8(s, p1) {
            Some((mn, p2)) => match spec_pad_char(s, p2, ',') {
                Some(p3) => match spec_int_u8(s, p3) {
                    Some((mx, p4)) => {
                        let (spd, p5) = match spec_pad_char(s, p4, ',') {
                            Some(q1) => match spec_decimal(s, q1) {
                                Some((d, q2)) => (d, q2),
                                None => (decimal_one(), p4),
                            },
                            None => (decimal_one(), p4),
                        };
                        match spec_pad_char(s, p5, ')') {
                            Some(p6) => Some((mn, mx, spd, p6)),
                            None => None,
                        }
                    },
                    None => None,
                },
                None => None,
            },
            None => None,
        },
        None => None,
    }
}

fn lfo_args(s: &Vec<char>, pos: usize) -> (r: Option<(u8, u8, Decimal, usize)>)
    requires
        pos <= s@.len() <= usize::MAX,
    ensures
        r == spec_lfo_args(s@, pos),
        r matches Some((_, _, _, e)) ==> pos < e <= s@.len(),
{
    let p1 = pad_char(s, pos, '(')?;
    let (mn, p2) = int_u8(s, p1)?;
    let p3 = pad_char(s, p2, ',')?;
    let (mx, p4) = int_u8(s, p3)?;
    let (spd, p5) = match pad_char(s, p4, ',') {
        Some(q1) => match float_f64(s, q1) {
            Some((d, q2)) => (d, q2),
            None => (Decimal { negative: false, mantissa: 1, scale: 0 }, p4),
        },
        None => (Decimal { negative: false, mantissa: 1, scale: 0 }, p4),
    };
    let p6 = pad_char(s, p5, ')')?;
    Some((mn, mx, spd, p6))
}

/// A controller value: `sine`, `saw` or `tri` with optional `(min, max[, speed])`
/// (by default `(0, 127, 1)`), or a constant.
pub open spec fn spec_dynamic_value(s: Seq<char>, pos: usize) -> Option<(DynamicValue, usize)> {
    match spec_first_lit(s, spec_padding(s, pos), lfo_words(), 0) {
        Some((k, e)) => {
            let p1 = spec_padding(s, e);
            let (mn, mx, spd, p2) = match spec_lfo_args(s, p1) {
                Some((a, b, c, d)) => (a, b, c, d),
                None => (0u8, 127u8, decimal_one(), p1),
            };
            Some(
                (if k == 0 {
                    DynamicValue::Sine(mn, mx, spd)
                } else if k == 1 {
                    DynamicValue::Saw(mn, mx, spd)
                } else {
                    DynamicValue::Tri(mn, mx, spd)
                }, p2),
            )
        },
        None => match spec_int_u8(s, pos) {
            Some((v, e)) => Some((DynamicValue::Static(v), e)),
            None => None,
        },
    }
}

/// Parses a controller value.
pub fn dynamic_value(s: &Vec<char>, pos: usize) -> (r: Option<(DynamicValue, usize)>)
    requires
        pos <= s@.len() <= usize::MAX,
    ensures
        r == spec_dynamic_value(s@, pos),
        r matches Some((_, e)) ==> pos < e <= s@.len(),
{
    let p0 = padding(s, pos);
    let words: [&[char]; 3] = [&['s', 'i', 'n', 'e'], &['s', 'a', 'w'], &['t', 'r', 'i']];
    assert(words@.map_values(|w: &[char]| w@) =~= lfo_words());
    match first_lit(s, p0, &words) {
        Some((k, e)) => {
            proof {
                lemma_first_lit(s@, p0, lfo_words(), 0);
            }
            let p1 = padding(s, e);
            let (mn, mx, spd, p2) = match lfo_args(s, p1) {
                Some(x) => x,
                None => (0u8, 127u8, Decimal { negative: false, mantissa: 1, scale: 0 }, p1),
            };
            let v = if k == 0 {
                DynamicValue::Sine(mn, mx, spd)
            } else if k == 1 {
                DynamicValue::Saw(mn, mx, spd)
            } else {
                DynamicValue::Tri(mn, mx, spd)
            };
            Some((v, p2))
        },
        None => match int_u8(s, pos) {
            Some((v, e)) => Some((DynamicValue::Static(v), e)),
            None => None,
        },
    }
}

/// A controller change: `cc` (or `CC`), the controller number, then
/// optionally `@` and its value (127 by default).
pub open spec fn spec_cc_parser(s: Seq<char>, pos: usize) -> Option<(SNode, usize)> {
    let p1 = match spec_lit(s, pos, seq!['c', 'c']) {
        Some(e) => Some(e),
        None => spec_lit(s, pos, seq!['C', 'C']),
    };
    match p1 {
        Some(p1) => match spec_int_u8(s, p1) {
            Some((c, p2)) => {
                let (v, p3) = match spec_just(s, p2, '@') {
                    Some(q) => match spec_dynamic_value(s, q) {
                        Some((dv, q2)) => (dv, q2),
                        None => (DynamicValue::Static(127), p2),
                    },
                    None => (DynamicValue::Static(127), p2),
                };
                Some((SNode::CC { controller: c, value: v }, p3))
            },
            None => None,
        },
        None => None,
    }
}

/// Parses a controller change.
pub fn cc_parser(s: &Vec<char>, pos: usize) -> (r: Option<(Node, usize)>)
    requires
        pos <= s@.len() <= usize::MAX,
    ensures
        crate::ast::agrees(r, spec_cc_parser(s@, pos)),
        r matches Some((_, e)) ==> pos < e <= s@.len(),
{
    let lower = ['c', 'c'];
    let upper = ['C', 'C'];
    assert(lower@ =~= seq!['c', 'c']);
    assert(upper@ =~= seq!['C', 'C']);
    let p1 = match lit(s, pos, &lower) {
        Some(e) => e,
        None => lit(s, pos, &upper)?,
    };
    let (c, p2) = int_u8(s, p1)?;
    let (v, p3) = match just(s, p2, '@') {
        Some(q) => match dynamic_value(s, q) {
            Some((dv, q2)) => (dv, q2),
            None => (DynamicValue::Static(127), p2),
        },
        None => (DynamicValue::Static(127), p2),
    };
    Some((Node::CC { controller: c, value: v }, p3))
}

} // verus!

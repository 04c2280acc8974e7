//! Laying imported notes out as pattern text: what one grid step reads as,
//! and how the steps become a raw sequence, an arrangement or a chain.
use vstd::prelude::*;
use crate::parser::primitives::chars_to_string;
use crate::parser::program::text_chars;
use crate::text::{chars_view, join, join_chars, nat_text, push_nat, push_str};

verus! {

/// A note starting in a step: its start tick and its text.
pub type StepNote = (u64, Seq<char>);

/// `x` placed after every entry that starts no later than it.
pub open spec fn insert_by_tick(s: Seq<StepNote>, x: StepNote) -> Seq<StepNote>
    decreases s.len(),
{
    if s.len() == 0 {
        seq![x]
    } else if s.last().0 <= x.0 {
        s.push(x)
    } else {
        insert_by_tick(s.drop_last(), x).push(s.last())
    }
}

/// The notes ordered by start tick; notes that start together keep their
/// order.
pub open spec fn sort_by_tick(s: Seq<StepNote>) -> Seq<StepNote>
    decreases s.len(),
{
    if s.len() == 0 {
        Seq::empty()
    } else {
        insert_by_tick(sort_by_tick(s.drop_last()), s.last())
    }
}

pub open spec fn ticks_rising(s: Seq<StepNote>) -> bool {
    forall|i: int, j: int| 0 <= i < j < s.len() ==> #[trigger] s[i].0 <= #[trigger] s[j].0
}

proof fn lemma_insert_by_tick(s: Seq<StepNote>, x: StepNote)
    requires
        ticks_rising(s),
    ensures
        ticks_rising(insert_by_tick(s, x)),
        insert_by_tick(s, x).len() == s.len() + 1,
        insert_by_tick(s, x).to_multiset() == s.to_multiset().insert(x),
    decreases s.len(),
{
    broadcast use vstd::seq_lib::group_seq_properties;
    if s.len() > 0 && !(s.last().0 <= x.0) {
        let init = s.drop_last();
        lemma_insert_by_tick(init, x);
        let m = insert_by_tick(init, x);
        let r = m.push(s.last());
        assert forall|i: int, j: int| 0 <= i < j < r.len() implies #[trigger] r[i].0 <= #[trigger] r[j].0 by {
            if j == r.len() - 1 {
                // every entry of m is init's or x, all no later than s.last()
                assert(m.to_multiset().count(m[i]) > 0);
                if m[i] != x {
                    assert(init.to_multiset().count(m[i]) > 0);
                    assert(init.contains(m[i]));
                    let k = choose|k: int| 0 <= k < init.len() && init[k] == m[i];
                    assert(s[k] == init[k]);
                }
            }
        }
        assert(s =~= init.push(s.last()));
    }
}

/// Insertion of `x` in a list ordered by start tick.
fn insert_note(v: &mut Vec<(u64, Vec<char>)>, x: (u64, Vec<char>))
    ensures
        note_view(final(v)@) == insert_by_tick(note_view(old(v)@), (x.0, x.1@)),
{
    let ghost xv = (x.0, x.1@);
    let mut k = v.len();
    proof {
        assert(note_view(v@).take(k as int) =~= note_view(v@));
        assert(note_view(v@).skip(k as int) =~= Seq::<StepNote>::empty());
        assert(insert_by_tick(note_view(v@), xv) + Seq::<StepNote>::empty() =~= insert_by_tick(note_view(v@), xv));
    }
    while k > 0 && v[k - 1].0 > x.0
        invariant
            0 <= k <= v@.len(),
            v@ == old(v)@,
            xv == (x.0, x.1@),
            insert_by_tick(note_view(v@), xv) == insert_by_tick(note_view(v@).take(k as int), xv) + note_view(v@).skip(k as int),
        decreases k,
    {
        proof {
            let t = note_view(v@).take(k as int);
            assert(t.drop_last() =~= note_view(v@).take(k - 1));
            assert(t.last() == note_view(v@)[k - 1]);
            assert(t.last().0 == v@[k - 1].0);
            assert(note_view(v@).len() == v@.len());
            assert(t.len() == k);
            assert(xv.0 == x.0);
            assert(v@[k - 1].0 > x.0);
            assert(!(t.last().0 <= xv.0));
            assert(t.len() != 0);
            assert(insert_by_tick(t, xv) == insert_by_tick(t.drop_last(), xv).push(t.last()));
            assert(note_view(v@).skip(k - 1) =~= seq![t.last()] + note_view(v@).skip(k as int));
            assert(insert_by_tick(t.drop_last(), xv).push(t.last()) + note_view(v@).skip(k as int) =~= insert_by_tick(t.drop_last(), xv) + note_view(v@).skip(k - 1));
        }
        k -= 1;
    }
    proof {
        let t = note_view(v@).take(k as int);
        if k > 0 {
            assert(insert_by_tick(t, xv) == t.push(xv));
        } else {
            assert(t.len() == 0);
        }
    }
    let ghost before = v@;
    v.insert(k, x);
    proof {
        assert(note_view(v@) =~= note_view(before).take(k as int).push(xv) + note_view(before).skip(k as int));
    }
}

proof fn lemma_note_view_subrange(v: Seq<(u64, Vec<char>)>, a: int, b: int)
    requires
        0 <= a <= b <= v.len(),
    ensures
        note_view(v.subrange(a, b)) == note_view(v).subrange(a, b),
{
    assert(note_view(v.subrange(a, b)) =~= note_view(v).subrange(a, b));
}

proof fn lemma_chars_view_push(v: Seq<Vec<char>>, x: Vec<char>)
    ensures
        chars_view(v.push(x)) == chars_view(v).push(x@),
{
    assert(chars_view(v.push(x)) =~= chars_view(v).push(x@));
}

/// The view of notes with their texts.
pub open spec fn note_view(v: Seq<(u64, Vec<char>)>) -> Seq<StepNote> {
    v.map_values(|e: (u64, Vec<char>)| (e.0, e.1@))
}

/// Orders the notes of a step by start tick, keeping the order of notes
/// that start together.
pub fn sort_step_notes(notes: Vec<(u64, Vec<char>)>) -> (r: Vec<(u64, Vec<char>)>)
    ensures
        note_view(r@) == sort_by_tick(note_view(notes@)),
{
    let ghost whole = note_view(notes@);
    let mut rest = notes;
    let mut out: Vec<(u64, Vec<char>)> = Vec::new();
    let mut i: usize = 0;
    let total = rest.len();
    assert(note_view(out@) =~= sort_by_tick(whole.take(0)));
    while rest.len() > 0
        invariant
            0 <= i <= whole.len(),
            whole.len() == total,
            note_view(rest@) == whole.skip(i as int),
            note_view(out@) == sort_by_tick(whole.take(i as int)),
        decreases rest.len(),
    {
        let ghost rv = rest@;
        assert(note_view(rv).len() == rv.len());
        let x = rest.remove(0);
        proof {
            assert(note_view(rv)[0] == (x.0, x.1@));
            assert(whole.take(i + 1).drop_last() =~= whole.take(i as int));
            assert(whole.take(i + 1).last() == whole.skip(i as int)[0]);
            assert(rest@ =~= rv.subrange(1, rv.len() as int));
            lemma_note_view_subrange(rv, 1, rv.len() as int);
            assert(note_view(rv).subrange(1, rv.len() as int) =~= whole.skip(i + 1));
            assert(note_view(rest@) =~= whole.skip(i + 1));
        }
        insert_note(&mut out, x);
        i += 1;
    }
    assert(whole.take(i as int) =~= whole);
    out
}

/// Ordering by start tick leaves the notes ordered and loses none.
pub proof fn law_sorted_step_notes(s: Seq<StepNote>)
    ensures
        ticks_rising(sort_by_tick(s)),
        sort_by_tick(s).to_multiset() == s.to_multiset(),
        sort_by_tick(s).len() == s.len(),
    decreases s.len(),
{
    broadcast use vstd::seq_lib::group_seq_properties;
    if s.len() > 0 {
        law_sorted_step_notes(s.drop_last());
        lemma_insert_by_tick(sort_by_tick(s.drop_last()), s.last());
        assert(s =~= s.drop_last().push(s.last()));
    }
}

/// Notes that start within 15 ticks of the note before them strike
/// together: the groups of a step.
pub open spec fn tick_groups(s: Seq<StepNote>) -> Seq<Seq<Seq<char>>>
    decreases s.len(),
{
    if s.len() == 0 {
        Seq::empty()
    } else if s.len() == 1 {
        seq![seq![s[0].1]]
    } else {
        let g = tick_groups(s.drop_last());
        if s.last().0 - s[s.len() - 2].0 < 15 && s[s.len() - 2].0 - s.last().0 < 15 {
            g.update(g.len() - 1, g.last().push(s.last().1))
        } else {
            g.push(seq![s.last().1])
        }
    }
}

/// The texts of the notes.
pub open spec fn note_texts(s: Seq<StepNote>) -> Seq<Seq<char>> {
    s.map_values(|e: StepNote| e.1)
}

/// The groups, each as the texts of its notes.
pub open spec fn groups_view(v: Seq<Vec<Vec<char>>>) -> Seq<Seq<Seq<char>>> {
    v.map_values(|g: Vec<Vec<char>>| chars_view(g@))
}

/// Each group as text.
pub open spec fn group_texts(gs: Seq<Seq<Seq<char>>>) -> Seq<Seq<char>> {
    gs.map_values(|g: Seq<Seq<char>>| group_text(g))
}

/// A group as text: one note alone, several as a `par`.
pub open spec fn group_text(g: Seq<Seq<char>>) -> Seq<char> {
    if g.len() == 1 {
        g[0]
    } else {
        seq!['p', 'a', 'r', '('] + join(g, seq![',', ' ']) + seq![')']
    }
}

/// Several pieces as a bracketed sequence, one as itself.
pub open spec fn bracket_if_many(parts: Seq<Seq<char>>) -> Seq<char> {
    if parts.len() > 1 {
        seq!['['] + join(parts, seq![' ']) + seq![']']
    } else {
        parts[0]
    }
}

/// What a step in which notes start reads as. With chords, notes that
/// start together form a `par`, and with subdivision the groups follow
/// each other within the step; without chords, subdivision plays the notes
/// one after another, and otherwise the first note stands for the step.
pub open spec fn step_text(sorted: Seq<StepNote>, chords: bool, subdivide: bool) -> Seq<char> {
    let texts = note_texts(sorted);
    if chords {
        if subdivide {
            bracket_if_many(group_texts(tick_groups(sorted)))
        } else {
            group_text(texts)
        }
    } else if subdivide && sorted.len() > 1 {
        seq!['['] + join(texts, seq![' ']) + seq![']']
    } else {
        texts[0]
    }
}

proof fn lemma_tick_groups(s: Seq<StepNote>)
    ensures
        s.len() > 0 ==> tick_groups(s).len() > 0,
        forall|i: int| 0 <= i < tick_groups(s).len() ==> #[trigger] tick_groups(s)[i].len() > 0,
    decreases s.len(),
{
    if s.len() > 1 {
        lemma_tick_groups(s.drop_last());
    }
}

fn group_chars(g: &Vec<Vec<char>>) -> (r: Vec<char>)
    requires
        g@.len() > 0,
    ensures
        r@ == group_text(chars_view(g@)),
{
    if g.len() == 1 {
        let mut out: Vec<char> = Vec::new();
        push_str(&mut out, &g[0]);
        assert(out@ =~= g@[0]@);
        return out;
    }
    let sep = vec![',', ' '];
    assert(sep@ =~= seq![',', ' ']);
    let inner = join_chars(g, &sep);
    let mut out: Vec<char> = vec!['p', 'a', 'r', '('];
    push_str(&mut out, &inner);
    out.push(')');
    assert(out@ =~= group_text(chars_view(g@)));
    out
}

fn bracket_chars(parts: &Vec<Vec<char>>) -> (r: Vec<char>)
    requires
        parts@.len() > 0,
    ensures
        r@ == bracket_if_many(chars_view(parts@)),
{
    if parts.len() > 1 {
        let sep = vec![' '];
        assert(sep@ =~= seq![' ']);
        let inner = join_chars(parts, &sep);
        let mut out: Vec<char> = vec!['['];
        push_str(&mut out, &inner);
        out.push(']');
        assert(out@ =~= bracket_if_many(chars_view(parts@)));
        out
    } else {
        let mut out: Vec<char> = Vec::new();
        push_str(&mut out, &parts[0]);
        assert(out@ =~= parts@[0]@);
        out
    }
}

/// The text of a grid step in which notes start.
pub fn step_cell(notes: Vec<(u64, Vec<char>)>, chords: bool, subdivide: bool) -> (r: Vec<char>)
    requires
        notes@.len() > 0,
    ensures
        r@ == step_text(sort_by_tick(note_view(notes@)), chords, subdivide),
{
    proof {
        law_sorted_step_notes(note_view(notes@));
    }
    let sorted = sort_step_notes(notes);
    let ghost sv = note_view(sorted@);
    let mut texts: Vec<Vec<char>> = Vec::new();
    let mut i: usize = 0;
    while i < sorted.len()
        invariant
            0 <= i <= sorted@.len(),
            sv == note_view(sorted@),
            chars_view(texts@) == note_texts(sv).take(i as int),
        decreases sorted.len() - i,
    {
        let mut t: Vec<char> = Vec::new();
        push_str(&mut t, &sorted[i].1);
        assert(t@ =~= sorted@[i as int].1@);
        proof {
            lemma_chars_view_push(texts@, t);
            assert(note_texts(sv)[i as int] == sorted@[i as int].1@);
            assert(note_texts(sv).take(i + 1) =~= note_texts(sv).take(i as int).push(sv[i as int].1));
        }
        texts.push(t);
        i += 1;
    }
    assert(note_texts(sv).take(sorted@.len() as int) =~= note_texts(sv));
    if chords {
        if subdivide {
            group_steps(&sorted)
        } else {
            group_chars(&texts)
        }
    } else if subdivide && sorted.len() > 1 {
        let sep = vec![' '];
        assert(sep@ =~= seq![' ']);
        let inner = join_chars(&texts, &sep);
        let mut out: Vec<char> = vec!['['];
        push_str(&mut out, &inner);
        out.push(']');
        assert(out@ =~= seq!['['] + join(note_texts(sv), seq![' ']) + seq![']']);
        out
    } else {
        let mut out: Vec<char> = Vec::new();
        push_str(&mut out, &sorted[0].1);
        assert(out@ =~= note_texts(sv)[0]);
        out
    }
}

/// Groups sorted notes and writes the groups.
fn group_steps(sorted: &Vec<(u64, Vec<char>)>) -> (r: Vec<char>)
    requires
        sorted@.len() > 0,
    ensures
        r@ == bracket_if_many(group_texts(tick_groups(note_view(sorted@)))),
{
    let ghost sv = note_view(sorted@);
    let mut groups: Vec<Vec<Vec<char>>> = Vec::new();
    let mut i: usize = 0;
    while i < sorted.len()
        invariant
            0 <= i <= sorted@.len(),
            sv == note_view(sorted@),
            groups@.map_values(|g: Vec<Vec<char>>| chars_view(g@)) == tick_groups(sv.take(i as int)),
        decreases sorted.len() - i,
    {
        let mut t: Vec<char> = Vec::new();
        push_str(&mut t, &sorted[i].1);
        assert(t@ =~= sorted@[i as int].1@);
        proof {
            assert(sv.take(i + 1).drop_last() =~= sv.take(i as int));
            assert(sv.take(i + 1).last() == sv[i as int]);
            lemma_tick_groups(sv.take(i as int));
            if i > 0 {
                assert(sv.take(i + 1)[i - 1] == sv[i - 1]);
            }
        }
        let together = i > 0 && (sorted[i].0 <= sorted[i - 1].0 || sorted[i].0 - sorted[i - 1].0 < 15) && (
        sorted[i - 1].0 <= sorted[i].0 || sorted[i - 1].0 - sorted[i].0 < 15);
        let ghost gv = groups@.map_values(|g: Vec<Vec<char>>| chars_view(g@));
        if together {
            let last = groups.len() - 1;
            let mut g = groups.remove(last);
            let ghost gold = g@;
            g.push(t);
            proof {
                assert(chars_view(g@) =~= chars_view(gold).push(sv[i as int].1));
            }
            groups.push(g);
            proof {
                assert(groups@.map_values(|g: Vec<Vec<char>>| chars_view(g@)) =~= gv.update(
                    gv.len() - 1,
                    gv.last().push(sv[i as int].1),
                ));
            }
        } else {
            let mut g: Vec<Vec<char>> = Vec::new();
            g.push(t);
            proof {
                assert(chars_view(g@) =~= seq![sv[i as int].1]);
            }
            groups.push(g);
            proof {
                assert(groups@.map_values(|g: Vec<Vec<char>>| chars_view(g@)) =~= gv.push(
                    seq![sv[i as int].1],
                ));
            }
        }
        i += 1;
    }
    assert(sv.take(sorted@.len() as int) =~= sv);
    proof {
        lemma_tick_groups(sv);
    }
    let mut parts: Vec<Vec<char>> = Vec::new();
    let ghost gall = groups@.map_values(|g: Vec<Vec<char>>| chars_view(g@));
    let mut k: usize = 0;
    while k < groups.len()
        invariant
            0 <= k <= groups@.len(),
            gall == groups@.map_values(|g: Vec<Vec<char>>| chars_view(g@)),
            gall == tick_groups(sv),
            forall|q: int| 0 <= q < gall.len() ==> #[trigger] gall[q].len() > 0,
            chars_view(parts@) == group_texts(gall).take(k as int),
        decreases groups.len() - k,
    {
        assert(gall[k as int] == chars_view(groups@[k as int]@));
        let c = group_chars(&groups[k]);
        proof {
            lemma_chars_view_push(parts@, c);
            assert(group_texts(gall)[k as int] == group_text(gall[k as int]));
            assert(group_texts(gall).take(k + 1) =~= group_texts(gall).take(k as int).push(group_text(gall[k as int])));
        }
        parts.push(c);
        k += 1;
    }
    assert(group_texts(gall).take(groups@.len() as int) =~= group_texts(gall));
    bracket_chars(&parts)
}


/// The grid cut into rows of `n` steps (the last row may be shorter).
pub open spec fn rows(g: Seq<Seq<char>>, n: nat) -> Seq<Seq<Seq<char>>>
    decreases g.len(),
    when n > 0
{
    if g.len() == 0 {
        Seq::empty()
    } else if g.len() <= n {
        seq![g]
    } else {
        seq![g.take(n as int)] + rows(g.skip(n as int), n)
    }
}

/// Runs of equal consecutive rows: how often each row repeats.
pub open spec fn runs(rs: Seq<Seq<Seq<char>>>) -> Seq<(nat, Seq<Seq<char>>)>
    decreases rs.len(),
{
    if rs.len() == 0 {
        Seq::empty()
    } else {
        let r = runs(rs.drop_last());
        if r.len() > 0 && r.last().1 == rs.last() {
            r.update(r.len() - 1, (r.last().0 + 1, rs.last()))
        } else {
            r.push((1nat, rs.last()))
        }
    }
}

/// A row as a bracketed sequence.
pub open spec fn row_text(row: Seq<Seq<char>>) -> Seq<char> {
    seq!['['] + join(row, seq![' ']) + seq![']']
}

/// Arrangement segment `i`: `(i, i+1): [row]`.
pub open spec fn arrange_segment_text(i: nat, row: Seq<Seq<char>>) -> Seq<char> {
    seq!['('] + nat_text(i) + seq![',', ' '] + nat_text(i + 1) + seq![')', ':', ' '] + row_text(row)
}

/// A chain segment: `count: [row]`.
pub open spec fn chain_segment_text(run: (nat, Seq<Seq<char>>)) -> Seq<char> {
    nat_text(run.0) + seq![':', ' '] + row_text(run.1)
}

pub open spec fn w_raw() -> Seq<char> {
    seq!['r', 'a', 'w']
}

pub open spec fn w_arrange_fmt() -> Seq<char> {
    seq!['a', 'r', 'r', 'a', 'n', 'g', 'e']
}

/// The pattern text of a grid: a plain sequence (`raw`), one arrangement
/// segment per row (`arrange`), or, for any other format, a chain in which
/// repeated rows are counted.
pub open spec fn import_text(grid: Seq<Seq<char>>, format: Seq<char>, n: nat) -> Seq<char> {
    if format == w_raw() {
        seq!['[', ' '] + join(grid, seq![' ']) + seq![' ', ']']
    } else if format == w_arrange_fmt() {
        let rs = rows(grid, n);
        seq!['a', 'r', 'r', 'a', 'n', 'g', 'e', ' ', '[', ' '] + join(
            Seq::new(rs.len(), |i: int| arrange_segment_text(i as nat, rs[i])),
            seq![',', ' '],
        ) + seq![' ', ']']
    } else {
        let rn = runs(rows(grid, n));
        seq!['c', 'h', 'a', 'i', 'n', ' ', '[', ' '] + join(
            Seq::new(rn.len(), |i: int| chain_segment_text(rn[i])),
            seq![',', ' '],
        ) + seq![' ', ']']
    }
}

fn copy_chars(v: &Vec<char>) -> (r: Vec<char>)
    ensures
        r@ == v@,
{
    let mut out: Vec<char> = Vec::new();
    push_str(&mut out, v);
    assert(out@ =~= v@);
    out
}

/// The rows, each as the texts of its steps.
pub open spec fn rows_view(v: Seq<Vec<Vec<char>>>) -> Seq<Seq<Seq<char>>> {
    v.map_values(|row: Vec<Vec<char>>| chars_view(row@))
}

fn rows_exec(grid: &Vec<Vec<char>>, n: usize) -> (r: Vec<Vec<Vec<char>>>)
    requires
        n > 0,
    ensures
        rows_view(r@) == rows(chars_view(grid@), n as nat),
{
    let ghost gv = chars_view(grid@);
    let mut out: Vec<Vec<Vec<char>>> = Vec::new();
    let mut i: usize = 0;
    let len = grid.len();
    assert(gv.skip(0) =~= gv);
    while i < len
        invariant
            0 <= i <= len,
            len == grid@.len(),
            gv == chars_view(grid@),
            n > 0,
            i < len ==> rows(gv, n as nat) == rows_view(out@) + rows(gv.skip(i as int), n as nat),
            i >= len ==> rows(gv, n as nat) == rows_view(out@),
        decreases len - i,
    {
        let end = if len - i <= n {
            len
        } else {
            i + n
        };
        let mut row: Vec<Vec<char>> = Vec::new();
        let mut j = i;
        while j < end
            invariant
                i <= j <= end <= len,
                len == grid@.len(),
                gv == chars_view(grid@),
                chars_view(row@) == gv.subrange(i as int, j as int),
            decreases end - j,
        {
            let c = copy_chars(&grid[j]);
            proof {
                lemma_chars_view_push(row@, c);
                assert(gv[j as int] == grid@[j as int]@);
                assert(gv.subrange(i as int, j + 1) =~= gv.subrange(i as int, j as int).push(gv[j as int]));
            }
            row.push(c);
            j += 1;
        }
        proof {
            let rest = gv.skip(i as int);
            let head = chars_view(row@);
            if len - i <= n {
                assert(head =~= rest);
                assert(rows(rest, n as nat) == seq![rest]);
            } else {
                assert(head =~= rest.take(n as int));
                assert(rest.skip(n as int) =~= gv.skip(end as int));
            }
            assert(rows_view(out@.push(row)) =~= rows_view(out@).push(head));
            if end < len {
                assert(rows_view(out@) + rows(rest, n as nat) =~= out@.map_values(
                    |row: Vec<Vec<char>>| chars_view(row@),
                ).push(head) + rows(gv.skip(end as int), n as nat));
            } else {
                assert(rows_view(out@) + rows(rest, n as nat) =~= out@.map_values(
                    |row: Vec<Vec<char>>| chars_view(row@),
                ).push(head));
            }
        }
        out.push(row);
        i = end;
    }
    proof {
        if len == 0 {
            assert(rows(gv, n as nat) =~= Seq::<Seq<Seq<char>>>::empty());
            assert(rows_view(out@) =~= Seq::<Seq<Seq<char>>>::empty());
        }
    }
    out
}


#[verifier::loop_isolation(false)]
fn rows_equal(a: &Vec<Vec<char>>, b: &Vec<Vec<char>>) -> (r: bool)
    ensures
        r == (chars_view(a@) == chars_view(b@)),
{
    if a.len() != b.len() {
        assert(chars_view(a@).len() != chars_view(b@).len());
        return false;
    }
    let mut i: usize = 0;
    while i < a.len()
        invariant
            0 <= i <= a@.len(),
            a@.len() == b@.len(),
            forall|k: int| 0 <= k < i ==> #[trigger] a@[k]@ == b@[k]@,
        decreases a.len() - i,
    {
        let x = &a[i];
        let y = &b[i];
        if x.len() != y.len() {
            assert(chars_view(a@)[i as int] != chars_view(b@)[i as int]);
            return false;
        }
        let mut j: usize = 0;
        while j < x.len()
            invariant
                0 <= j <= x@.len(),
                x@.len() == y@.len(),
                forall|k: int| 0 <= k < j ==> x@[k] == y@[k],
            decreases x.len() - j,
        {
            if x[j] != y[j] {
                assert(chars_view(a@)[i as int][j as int] != chars_view(b@)[i as int][j as int]);
                return false;
            }
            j += 1;
        }
        assert(x@ =~= y@);
        i += 1;
    }
    assert(chars_view(a@) =~= chars_view(b@));
    true
}

fn runs_exec(rs: Vec<Vec<Vec<char>>>) -> (r: Vec<(usize, Vec<Vec<char>>)>)
    ensures
        runs_view(r@) == runs(rows_view(rs@)),
{
    let ghost whole = rows_view(rs@);
    let total = rs.len();
    let mut out: Vec<(usize, Vec<Vec<char>>)> = Vec::new();
    let mut rest = rs;
    let mut i: usize = 0;
    assert(runs_view(out@) =~= runs(whole.take(0)));
    while rest.len() > 0
        invariant
            0 <= i <= total,
            whole.len() == total,
            rows_view(rest@) == whole.skip(i as int),
            runs_view(out@) == runs(whole.take(i as int)),
            forall|k: int| 0 <= k < out@.len() ==> #[trigger] out@[k].0 <= i,
        decreases rest.len(),
    {
        let ghost rv = rest@;
        assert(rows_view(rv).len() == rv.len());
        let row = rest.remove(0);
        proof {
            assert(rows_view(rv)[0] == chars_view(row@));
            assert(whole.take(i + 1).drop_last() =~= whole.take(i as int));
            assert(whole.take(i + 1).last() == chars_view(row@));
            assert(rest@ =~= rv.subrange(1, rv.len() as int));
            assert(rows_view(rv.subrange(1, rv.len() as int)) =~= rows_view(rv).subrange(1, rv.len() as int));
            assert(rows_view(rest@) =~= whole.skip(i + 1));
        }
        let ghost ov = runs_view(out@);
        let n = out.len();
        if n > 0 && rows_equal(&out[n - 1].1, &row) {
            let (c, r0) = out.remove(n - 1);
            out.push((c + 1, r0));
            proof {
                assert(runs_view(out@) =~= ov.update(ov.len() - 1, (ov.last().0 + 1, chars_view(row@))));
            }
        } else {
            out.push((1, row));
            proof {
                assert(runs_view(out@) =~= ov.push((1nat, chars_view(row@))));
            }
        }
        i += 1;
    }
    assert(whole.take(i as int) =~= whole);
    out
}

/// The view of runs.
pub open spec fn runs_view(v: Seq<(usize, Vec<Vec<char>>)>) -> Seq<(nat, Seq<Seq<char>>)> {
    v.map_values(|e: (usize, Vec<Vec<char>>)| (e.0 as nat, chars_view(e.1@)))
}


fn row_chars(row: &Vec<Vec<char>>) -> (r: Vec<char>)
    ensures
        r@ == row_text(chars_view(row@)),
{
    let sep = vec![' '];
    assert(sep@ =~= seq![' ']);
    let inner = join_chars(row, &sep);
    let mut out: Vec<char> = vec!['['];
    push_str(&mut out, &inner);
    out.push(']');
    assert(out@ =~= row_text(chars_view(row@)));
    out
}

fn wrap_list(head: &Vec<char>, segs: &Vec<Vec<char>>) -> (r: Vec<char>)
    ensures
        r@ == head@ + join(chars_view(segs@), seq![',', ' ']) + seq![' ', ']'],
{
    let sep = vec![',', ' '];
    assert(sep@ =~= seq![',', ' ']);
    let inner = join_chars(segs, &sep);
    let mut out: Vec<char> = Vec::new();
    push_str(&mut out, head);
    push_str(&mut out, &inner);
    out.push(' ');
    out.push(']');
    assert(out@ =~= head@ + join(chars_view(segs@), seq![',', ' ']) + seq![' ', ']']);
    out
}

/// Writes a grid of steps as pattern text in the given format, with rows
/// of `n` steps.
pub fn grid_text(grid: &Vec<Vec<char>>, format: &str, n: usize) -> (r: String)
    requires
        n > 0,
    ensures
        r@ == import_text(chars_view(grid@), format@, n as nat),
{
    let f = text_chars(format);
    let wr = vec!['r', 'a', 'w'];
    let wa = vec!['a', 'r', 'r', 'a', 'n', 'g', 'e'];
    assert(wr@ =~= w_raw());
    assert(wa@ =~= w_arrange_fmt());
    let is_raw = rows_equal_chars(&f, &wr);
    let is_arrange = rows_equal_chars(&f, &wa);
    if is_raw {
        let sep = vec![' '];
        assert(sep@ =~= seq![' ']);
        let inner = join_chars(grid, &sep);
        let mut out: Vec<char> = vec!['[', ' '];
        push_str(&mut out, &inner);
        out.push(' ');
        out.push(']');
        assert(out@ =~= import_text(chars_view(grid@), format@, n as nat));
        return chars_to_string(&out);
    }
    let rs = rows_exec(grid, n);
    let ghost rv = rows_view(rs@);
    let mut segs: Vec<Vec<char>> = Vec::new();
    if is_arrange {
        let mut i: usize = 0;
        while i < rs.len()
            invariant
                0 <= i <= rs@.len(),
                rv == rows_view(rs@),
                chars_view(segs@) == Seq::new(rv.len(), |k: int| arrange_segment_text(k as nat, rv[k])).take(i as int),
            decreases rs.len() - i,
        {
            let mut seg: Vec<char> = vec!['('];
            push_nat(&mut seg, i as u64);
            seg.push(',');
            seg.push(' ');
            push_nat(&mut seg, (i + 1) as u64);
            seg.push(')');
            seg.push(':');
            seg.push(' ');
            let rt = row_chars(&rs[i]);
            push_str(&mut seg, &rt);
            proof {
                assert(seg@ =~= arrange_segment_text(i as nat, rv[i as int]));
                lemma_chars_view_push(segs@, seg);
                assert(Seq::new(rv.len(), |k: int| arrange_segment_text(k as nat, rv[k])).take(i + 1) =~= Seq::new(
                    rv.len(),
                    |k: int| arrange_segment_text(k as nat, rv[k]),
                ).take(i as int).push(arrange_segment_text(i as nat, rv[i as int])));
            }
            segs.push(seg);
            i += 1;
        }
        let head = vec!['a', 'r', 'r', 'a', 'n', 'g', 'e', ' ', '[', ' '];
        let out = wrap_list(&head, &segs);
        proof {
            assert(Seq::new(rv.len(), |k: int| arrange_segment_text(k as nat, rv[k])).take(rs@.len() as int) =~= Seq::new(
                rv.len(),
                |k: int| arrange_segment_text(k as nat, rv[k]),
            ));
            assert(out@ =~= import_text(chars_view(grid@), format@, n as nat));
        }
        return chars_to_string(&out);
    }
    let rn = runs_exec(rs);
    let ghost nv = runs_view(rn@);
    let mut i: usize = 0;
    while i < rn.len()
        invariant
            0 <= i <= rn@.len(),
            nv == runs_view(rn@),
            chars_view(segs@) == Seq::new(nv.len(), |k: int| chain_segment_text(nv[k])).take(i as int),
        decreases rn.len() - i,
    {
        let mut seg: Vec<char> = Vec::new();
        push_nat(&mut seg, rn[i].0 as u64);
        seg.push(':');
        seg.push(' ');
        let rt = row_chars(&rn[i].1);
        push_str(&mut seg, &rt);
        proof {
            assert(seg@ =~= chain_segment_text(nv[i as int]));
            lemma_chars_view_push(segs@, seg);
            assert(Seq::new(nv.len(), |k: int| chain_segment_text(nv[k])).take(i + 1) =~= Seq::new(
                nv.len(),
                |k: int| chain_segment_text(nv[k]),
            ).take(i as int).push(chain_segment_text(nv[i as int])));
        }
        segs.push(seg);
        i += 1;
    }
    let head = vec!['c', 'h', 'a', 'i', 'n', ' ', '[', ' '];
    let out = wrap_list(&head, &segs);
    proof {
        assert(Seq::new(nv.len(), |k: int| chain_segment_text(nv[k])).take(rn@.len() as int) =~= Seq::new(
            nv.len(),
            |k: int| chain_segment_text(nv[k]),
        ));
        assert(out@ =~= import_text(chars_view(grid@), format@, n as nat));
    }
    chars_to_string(&out)
}

fn rows_equal_chars(a: &Vec<char>, b: &Vec<char>) -> (r: bool)
    ensures
        r == (a@ == b@),
{
    if a.len() != b.len() {
        return false;
    }
    let mut i: usize = 0;
    while i < a.len()
        invariant
            0 <= i <= a@.len(),
            a@.len() == b@.len(),
            forall|k: int| 0 <= k < i ==> a@[k] == b@[k],
        decreases a.len() - i,
    {
        if a[i] != b[i] {
            return false;
        }
        i += 1;
    }
    assert(a@ =~= b@);
    true
}


/// Whether a note that started before `step` still sounds through it.
pub fn held_through(spans: &Vec<(usize, usize)>, step: usize) -> (r: bool)
    ensures
        r == exists|i: int| 0 <= i < spans@.len() && #[trigger] spans@[i].0 < step && step < spans@[i].1,
{
    let mut i: usize = 0;
    while i < spans.len()
        invariant
            0 <= i <= spans@.len(),
            forall|k: int| 0 <= k < i ==> !(#[trigger] spans@[k].0 < step && step < spans@[k].1),
        decreases spans.len() - i,
    {
        if spans[i].0 < step && step < spans[i].1 {
            return true;
        }
        i += 1;
    }
    false
}

// ---------------------------------------------------------------------
// A grid of snapped notes
// ---------------------------------------------------------------------

/// The latest end step of the notes (0 when there are none).
pub open spec fn max_end_step(spans: Seq<(usize, usize)>) -> nat
    decreases spans.len(),
{
    if spans.len() == 0 {
        0
    } else {
        let m = max_end_step(spans.drop_last());
        if spans.last().1 > m {
            spans.last().1 as nat
        } else {
            m
        }
    }
}

/// The number of steps of a snapped grid: the latest end rounded up to
/// whole rows, or one row when no note ends after step 0.
pub open spec fn snap_total(max_end: nat, row: nat) -> nat {
    if max_end == 0 {
        row
    } else if max_end % row != 0 {
        max_end + (row - max_end % row) as nat
    } else {
        max_end
    }
}

/// The notes that start at `step`, in their order.
pub open spec fn starting_at(spans: Seq<(usize, usize)>, notes: Seq<StepNote>, step: nat) -> Seq<StepNote>
    decreases spans.len(),
{
    if spans.len() == 0 || notes.len() == 0 {
        Seq::empty()
    } else {
        starting_at(spans.drop_last(), notes.drop_last(), step) + if spans.last().0 == step {
            seq![notes.last()]
        } else {
            Seq::empty()
        }
    }
}

/// The text of step `step` of a snapped grid: the notes starting there, a
/// hold while a note started earlier still sounds, a rest otherwise.
pub open spec fn snap_cell(spans: Seq<(usize, usize)>, notes: Seq<StepNote>, step: nat, chords: bool, subdivide: bool) -> Seq<char> {
    let st = starting_at(spans, notes, step);
    if st.len() > 0 {
        step_text(sort_by_tick(st), chords, subdivide)
    } else if exists|i: int| 0 <= i < spans.len() && #[trigger] spans[i].0 < step && step < spans[i].1 {
        seq!['_']
    } else {
        seq!['.']
    }
}

/// The steps of a snapped grid.
pub open spec fn snap_cells(spans: Seq<(usize, usize)>, notes: Seq<StepNote>, row: nat, chords: bool, subdivide: bool) -> Seq<Seq<char>> {
    Seq::new(snap_total(max_end_step(spans), row), |step: int| snap_cell(spans, notes, step as nat, chords, subdivide))
}

/// The number of steps of a grid whose notes end by step `max_end`, in
/// rows of `row` steps; `None` when it does not fit in a `usize`.
pub fn grid_steps(max_end: usize, row: usize) -> (r: Option<usize>)
    requires
        row > 0,
    ensures
        match r {
            Some(t) => t == snap_total(max_end as nat, row as nat),
            None => snap_total(max_end as nat, row as nat) > usize::MAX,
        },
{
    if max_end == 0 {
        Some(row)
    } else {
        let rem = max_end % row;
        if rem != 0 {
            let add = row - rem;
            if max_end > usize::MAX - add {
                None
            } else {
                Some(max_end + add)
            }
        } else {
            Some(max_end)
        }
    }
}

/// Lays out notes snapped to grid steps: `spans` holds the start and end
/// step of each note, `notes` its start tick and text. `None` when the
/// number of steps does not fit in a `usize`.
pub fn snap_grid(
    spans: &Vec<(usize, usize)>,
    notes: &Vec<(u64, Vec<char>)>,
    row: usize,
    chords: bool,
    subdivide: bool,
) -> (r: Option<Vec<Vec<char>>>)
    requires
        spans@.len() == notes@.len(),
        row > 0,
    ensures
        match r {
            Some(cells) => snap_total(max_end_step(spans@), row as nat) <= usize::MAX
                && chars_view(cells@) == snap_cells(spans@, note_view(notes@), row as nat, chords, subdivide),
            None => snap_total(max_end_step(spans@), row as nat) > usize::MAX,
        },
{
    let n = spans.len();
    let mut max_end: usize = 0;
    let mut i: usize = 0;
    while i < n
        invariant
            0 <= i <= n,
            n == spans@.len(),
            max_end == max_end_step(spans@.take(i as int)),
        decreases n - i,
    {
        proof {
            assert(spans@.take(i + 1).drop_last() =~= spans@.take(i as int));
            assert(spans@.take(i + 1).last() == spans@[i as int]);
        }
        if spans[i].1 > max_end {
            max_end = spans[i].1;
        }
        i += 1;
    }
    assert(spans@.take(n as int) =~= spans@);
    let total: usize = match grid_steps(max_end, row) {
        Some(t) => t,
        None => {
            return None;
        },
    };
    let ghost sv = spans@;
    let ghost nv = note_view(notes@);
    let mut cells: Vec<Vec<char>> = Vec::new();
    let mut step: usize = 0;
    while step < total
        invariant
            0 <= step <= total,
            total == snap_total(max_end_step(sv), row as nat),
            sv == spans@,
            nv == note_view(notes@),
            n == spans@.len(),
            n == notes@.len(),
            cells@.len() == step,
            forall|k: int| 0 <= k < step ==> (#[trigger] cells@[k])@ == snap_cell(sv, nv, k as nat, chords, subdivide),
        decreases total - step,
    {
        let mut starting: Vec<(u64, Vec<char>)> = Vec::new();
        let mut j: usize = 0;
        while j < n
            invariant
                0 <= j <= n,
                n == spans@.len(),
                n == notes@.len(),
                sv == spans@,
                nv == note_view(notes@),
                note_view(starting@) == starting_at(sv.take(j as int), nv.take(j as int), step as nat),
            decreases n - j,
        {
            proof {
                assert(sv.take(j + 1).drop_last() =~= sv.take(j as int));
                assert(nv.take(j + 1).drop_last() =~= nv.take(j as int));
                assert(sv.take(j + 1).last() == sv[j as int]);
                assert(nv.take(j + 1).last() == nv[j as int]);
            }
            if spans[j].0 == step {
                let t = copy_chars(&notes[j].1);
                let e = (notes[j].0, t);
                proof {
                    assert(note_view(starting@.push(e)) =~= note_view(starting@) + seq![nv[j as int]]);
                }
                starting.push(e);
            } else {
                proof {
                    assert(starting_at(sv.take(j as int), nv.take(j as int), step as nat) + Seq::<StepNote>::empty()
                        =~= starting_at(sv.take(j as int), nv.take(j as int), step as nat));
                }
            }
            j += 1;
        }
        proof {
            assert(sv.take(n as int) =~= sv);
            assert(nv.take(n as int) =~= nv);
        }
        let cell: Vec<char> = if starting.len() > 0 {
            step_cell(starting, chords, subdivide)
        } else if held_through(spans, step) {
            vec!['_']
        } else {
            vec!['.']
        };
        proof {
            if starting@.len() == 0 {
                assert(note_view(starting@).len() == 0);
            }
        }
        cells.push(cell);
        step += 1;
    }
    proof {
        assert(chars_view(cells@) =~= snap_cells(sv, nv, row as nat, chords, subdivide));
    }
    Some(cells)
}

} // verus!

//! The integer decisions of rendering a cycle: which branch, segment, scale
//! and seed apply, and how chord modifiers move or keep pitches. The random
//! draws go through `rand`.
use vstd::prelude::*;
use rand::RngExt;
use rand::rngs::StdRng;
use rand::seq::{IndexedRandom, SliceRandom};
use crate::ast::{
    CondScope, clone_scale, opt_scale_view, segments_view, ExtractType, Node, Program, ScaleDef, ScaleSequence,
    SeedDef, SeedInterval, SScale, Track,
};
use crate::arp::{is_sorted_unique_of, sort_unique_notes, strictly_rising};
use crate::cycles::max_end;
use crate::math::clamp_midi;

verus! {

#[verifier::external_type_specification]
#[verifier::external_body]
pub struct ExStdRng(StdRng);

// ---------------------------------------------------------------------
// Random draws
// ---------------------------------------------------------------------

/// A number below `n` drawn from `rng` (`RngExt::random_range(0..n)`);
/// which one depends on the generator's state.
#[verifier::external_body]
fn random_below(rng: &mut StdRng, n: usize) -> (r: usize)
    requires
        n > 0,
    ensures
        r < n,
{
    rng.random_range(0..n)
}

/// A number below 100 drawn from `rng` (`RngExt::random_range(0..100u8)`).
#[verifier::external_body]
fn random_percent(rng: &mut StdRng) -> (r: u8)
    ensures
        r < 100,
{
    rng.random_range(0..100u8)
}

/// The sum of the weights.
pub open spec fn weight_sum(w: Seq<(usize, u32)>) -> nat
    decreases w.len(),
{
    if w.len() == 0 {
        0
    } else {
        weight_sum(w.drop_last()) + w.last().1 as nat
    }
}

/// Draws an entry with probability proportional to its weight
/// (`IndexedRandom::choose_weighted`) and answers its first field. `rand`
/// refuses the draw, giving `None`, when there are no entries, when the
/// weights sum to zero, or when their sum overflows a `u32`; an entry of
/// weight zero is never drawn.
#[verifier::external_body]
fn choose_weighted_entry(entries: &Vec<(usize, u32)>, rng: &mut StdRng) -> (r: Option<usize>)
    ensures
        r is Some <==> (entries@.len() > 0 && 0 < weight_sum(entries@) <= u32::MAX),
        r matches Some(x) ==> exists|k: int| 0 <= k < entries@.len() && #[trigger] entries@[k].0 == x && entries@[k].1 > 0,
{
    entries.choose_weighted(rng, |e| e.1).ok().map(|e| e.0)
}

/// Shuffles the indices in place (`SliceRandom::shuffle`): the result is a
/// permutation of what was there.
#[verifier::external_body]
fn shuffle_in_place(v: &mut Vec<usize>, rng: &mut StdRng)
    ensures
        final(v)@.to_multiset() == old(v)@.to_multiset(),
        final(v)@.len() == old(v)@.len(),
{
    v.shuffle(rng);
}

/// The weights of random-choice branches in order, or whether they can be
/// drawn by weight.
pub open spec fn drawable(weights: Seq<u32>) -> bool {
    weights.len() > 0 && 0 < weight_sum(indexed(weights)) <= u32::MAX
}

/// The weights paired with their positions.
pub open spec fn indexed(weights: Seq<u32>) -> Seq<(usize, u32)> {
    Seq::new(weights.len(), |i: int| (i as usize, weights[i]))
}

/// Picks a branch of a random choice: by weight when the weights allow it,
/// otherwise uniformly.
pub fn pick_branch(weights: &Vec<u32>, rng: &mut StdRng) -> (r: usize)
    requires
        weights@.len() > 0,
    ensures
        r < weights@.len(),
        drawable(weights@) ==> weights@[r as int] > 0,
{
    let mut entries: Vec<(usize, u32)> = Vec::new();
    let mut i: usize = 0;
    while i < weights.len()
        invariant
            0 <= i <= weights@.len(),
            entries@ == indexed(weights@).take(i as int),
        decreases weights.len() - i,
    {
        entries.push((i, weights[i]));
        proof {
            assert(indexed(weights@).take(i + 1) =~= indexed(weights@).take(i as int).push((i, weights@[i as int])));
        }
        i += 1;
    }
    assert(entries@ =~= indexed(weights@));
    match choose_weighted_entry(&entries, rng) {
        Some(x) => {
            proof {
                let k = choose|k: int| 0 <= k < entries@.len() && #[trigger] entries@[k].0 == x && entries@[k].1 > 0;
                assert(entries@[k] == (k as usize, weights@[k]));
            }
            x
        },
        None => random_below(rng, weights.len()),
    }
}

/// The order in which a shuffled sequence plays its `n` steps: a permutation
/// of `0..n`.
pub fn shuffled_order(n: usize, rng: &mut StdRng) -> (r: Vec<usize>)
    ensures
        r@.len() == n,
        r@.to_multiset() == Seq::new(n as nat, |i: int| i as usize).to_multiset(),
{
    let mut v: Vec<usize> = Vec::new();
    let mut i: usize = 0;
    while i < n
        invariant
            0 <= i <= n,
            v@ == Seq::new(i as nat, |k: int| k as usize),
        decreases n - i,
    {
        v.push(i);
        proof {
            assert(v@ =~= Seq::new((i + 1) as nat, |k: int| k as usize));
        }
        i += 1;
    }
    shuffle_in_place(&mut v, rng);
    v
}

/// Whether a step under `prob` percent plays on the draw `roll`.
pub open spec fn plays_on(prob: u8, roll: u8) -> bool {
    prob >= 100 || roll < prob
}

/// Whether a step under `prob` percent plays when the draw below 100 came
/// out as `roll`: always at 100 or more, otherwise when the draw falls
/// under `prob`, so that `prob` of the 100 possible draws play it.
pub fn step_plays(prob: u8, roll: u8) -> (r: bool)
    requires
        roll < 100,
    ensures
        r == plays_on(prob, roll),
{
    prob >= 100 || roll < prob
}

/// Whether a step under `prob` percent plays: the decision of `step_plays`
/// on a draw below 100, made only when `prob` is under 100.
pub fn probability_passes(prob: u8, rng: &mut StdRng) -> (r: bool)
    ensures
        prob >= 100 ==> r,
        exists|roll: u8| roll < 100 && r == #[trigger] plays_on(prob, roll),
{
    if prob < 100 {
        let roll = random_percent(rng);
        let r = step_plays(prob, roll);
        assert(r == plays_on(prob, roll));
        r
    } else {
        assert(plays_on(prob, 0));
        true
    }
}

// ---------------------------------------------------------------------
// Which branch, segment and scale apply
// ---------------------------------------------------------------------

/// The branch an alternator plays in a cycle, and the stride that nested
/// alternators use.
pub fn alternator_choice(cycle_count: usize, stride: usize, len: usize) -> (r: (usize, usize))
    requires
        stride > 0,
        len > 0,
        stride * len <= usize::MAX,
    ensures
        r.0 == (cycle_count / stride) % len,
        r.0 < len,
        r.1 == stride * len,
{
    ((cycle_count / stride) % len, stride * len)
}

/// An outermost alternator moves on by one element each cycle and comes
/// back to its first element after as many cycles as it has elements.
pub proof fn law_alternator_steps(cycle_count: nat, len: nat)
    requires
        len > 0,
    ensures
        (cycle_count + 1) % len == ((cycle_count % len) + 1) % len,
        (cycle_count + len) % len == cycle_count % len,
{
    vstd::arithmetic::div_mod::lemma_add_mod_noop(cycle_count as int, 1, len as int);
    vstd::arithmetic::div_mod::lemma_mod_add_multiples_vanish(cycle_count as int, len as int);
    assert(1int % (len as int) == (if len == 1 { 0int } else { 1int })) by {
        if len > 1 {
            vstd::arithmetic::div_mod::lemma_small_mod(1, len);
        }
    }
    if len == 1 {
        assert((cycle_count + 1) % 1 == 0);
        assert(((cycle_count % 1) + 1) % 1 == 0);
    }
}

/// Whether a condition plays its first branch in cycle `cycle_count` of a
/// pattern `pattern_len` cycles long (taken as 1 when 0): the count its
/// scope names (the cycle, or the macro-cycle) must be `offset` modulo
/// `interval`, and for `MacroFirst` the cycle must also open its
/// macro-cycle. An interval of 0 matches no cycle.
pub open spec fn condition_holds_at(scope: CondScope, interval: nat, offset: nat, cycle_count: nat, pattern_len: nat) -> bool {
    let m = if pattern_len == 0 { 1 } else { pattern_len };
    if interval == 0 {
        false
    } else {
        match scope {
            CondScope::Cycle => cycle_count % interval == offset,
            CondScope::Macro => (cycle_count / m) % interval == offset,
            CondScope::MacroFirst => (cycle_count / m) % interval == offset && cycle_count % m == 0,
        }
    }
}

/// Decides whether a condition plays its first branch in a cycle.
pub fn condition_holds(scope: CondScope, interval: usize, offset: usize, cycle_count: usize, pattern_len: usize) -> (r: bool)
    ensures
        r == condition_holds_at(scope, interval as nat, offset as nat, cycle_count as nat, pattern_len as nat),
{
    let m: usize = if pattern_len == 0 { 1 } else { pattern_len };
    if interval == 0 {
        return false;
    }
    match scope {
        CondScope::Cycle => cycle_count % interval == offset,
        CondScope::Macro => (cycle_count / m) % interval == offset,
        CondScope::MacroFirst => (cycle_count / m) % interval == offset && cycle_count % m == 0,
    }
}

/// The cycle within an arrangement: its length is the latest segment end
/// (at least 1).
pub open spec fn arrange_position(segs: Seq<(usize, usize, crate::ast::SNode)>, cycle_count: nat) -> nat {
    let len = if max_end(segs) == 0 { 1 } else { max_end(segs) };
    cycle_count % len
}

/// The segments active at `cur`, in order.
pub open spec fn active_segments(segs: Seq<(usize, usize, crate::ast::SNode)>, cur: nat) -> Seq<usize>
    decreases segs.len(),
{
    if segs.len() == 0 {
        Seq::empty()
    } else {
        let prev = active_segments(segs.drop_last(), cur);
        let last = segs.last();
        if last.0 <= cur < last.1 {
            prev.push((segs.len() - 1) as usize)
        } else {
            prev
        }
    }
}

/// The position within an arrangement and the segments that play there.
pub fn arrange_selection(segs: &Vec<(usize, usize, Box<Node>)>, cycle_count: usize) -> (r: (usize, Vec<usize>))
    ensures
        r.0 == arrange_position(segments_view(segs@), cycle_count as nat),
        r.1@ == active_segments(segments_view(segs@), r.0 as nat),
{
    let m = crate::cycles::arrange_end(segs);
    let len: usize = if m == 0 {
        1
    } else {
        m
    };
    let cur = cycle_count % len;
    let ghost sv = segments_view(segs@);
    let mut out: Vec<usize> = Vec::new();
    let mut i: usize = 0;
    assert(sv.take(0) =~= Seq::<(usize, usize, crate::ast::SNode)>::empty());
    while i < segs.len()
        invariant
            0 <= i <= segs@.len(),
            sv == segments_view(segs@),
            out@ == active_segments(sv.take(i as int), cur as nat),
        decreases segs.len() - i,
    {
        proof {
            assert(sv.take(i + 1).drop_last() =~= sv.take(i as int));
            assert(sv.take(i + 1).last().0 == segs@[i as int].0);
            assert(sv.take(i + 1).last().1 == segs@[i as int].1);
        }
        if segs[i].0 <= cur && cur < segs[i].1 {
            out.push(i);
        }
        i += 1;
    }
    assert(sv.take(segs@.len() as int) =~= sv);
    (cur, out)
}

/// The explicit scale entries: `(start, end, scale)`.
pub open spec fn scale_items(items: Seq<(usize, usize, ScaleDef)>) -> Seq<(usize, usize, SScale)> {
    items.map_values(|e: (usize, usize, ScaleDef)| (e.0, e.1, e.2@))
}

/// The latest end among scale entries (0 when there are none).
pub open spec fn scale_max_end(items: Seq<(usize, usize, SScale)>) -> nat
    decreases items.len(),
{
    if items.len() == 0 {
        0
    } else {
        let m = scale_max_end(items.drop_last());
        if items.last().1 > m {
            items.last().1 as nat
        } else {
            m
        }
    }
}

/// The first entry whose span holds `cur`.
pub open spec fn first_scale_at(items: Seq<(usize, usize, SScale)>, cur: nat) -> Option<SScale>
    decreases items.len(),
{
    if items.len() == 0 {
        None
    } else if items[0].0 <= cur < items[0].1 {
        Some(items[0].2)
    } else {
        first_scale_at(items.drop_first(), cur)
    }
}

/// The scale an explicit scale sequence selects for a cycle: the sequence
/// loops over its latest end.
pub open spec fn scale_at_cycle(items: Seq<(usize, usize, SScale)>, cycle_count: nat) -> Option<SScale> {
    let len = if scale_max_end(items) == 0 { 1 } else { scale_max_end(items) };
    first_scale_at(items, cycle_count % len)
}

/// The global scale for a cycle: the scale the sequence selects, where an
/// explicit sequence selects one, else the program's scale.
pub open spec fn global_scale_at(
    scale: Option<SScale>,
    seq: Option<crate::ast::SScaleSeq>,
    cycle_count: nat,
) -> Option<SScale> {
    match seq {
        Some(crate::ast::SScaleSeq::Explicit(items)) => match scale_at_cycle(items, cycle_count) {
            Some(sc) => Some(sc),
            None => scale,
        },
        _ => scale,
    }
}

/// The global scale in effect in a cycle.
#[verifier::loop_isolation(false)]
pub fn global_scale(program: &Program, cycle_count: usize) -> (r: Option<ScaleDef>)
    ensures
        opt_scale_view(r) == global_scale_at(program@.scale, program@.scale_seq, cycle_count as nat),
{
    let fallback = match &program.scale {
        Some(sc) => Some(clone_scale(sc)),
        None => None,
    };
    match &program.scale_seq {
        Some(ScaleSequence::Explicit(items)) => {
            let ghost iv = scale_items(items@);
            let mut m: usize = 0;
            let mut i: usize = 0;
            assert(iv.take(0) =~= Seq::<(usize, usize, SScale)>::empty());
            while i < items.len()
                invariant
                    0 <= i <= items@.len(),
                    iv == scale_items(items@),
                    m == scale_max_end(iv.take(i as int)),
                decreases items.len() - i,
            {
                proof {
                    assert(iv.take(i + 1).drop_last() =~= iv.take(i as int));
                }
                if items[i].1 > m {
                    m = items[i].1;
                }
                i += 1;
            }
            assert(iv.take(items@.len() as int) =~= iv);
            let len: usize = if m == 0 {
                1
            } else {
                m
            };
            let cur = cycle_count % len;
            let mut j: usize = 0;
            assert(iv.skip(0) =~= iv);
            while j < items.len()
                invariant
                    0 <= j <= items@.len(),
                    iv == scale_items(items@),
                    first_scale_at(iv, cur as nat) == first_scale_at(iv.skip(j as int), cur as nat),
                decreases items.len() - j,
            {
                proof {
                    assert(iv.skip(j as int).drop_first() =~= iv.skip(j + 1));
                    assert(iv.skip(j as int)[0] == (items@[j as int].0, items@[j as int].1, items@[j as int].2@));
                }
                if items[j].0 <= cur && cur < items[j].1 {
                    let sc = clone_scale(&items[j].2);
                    proof {
                        assert(first_scale_at(iv.skip(j as int), cur as nat) == Some(items@[j as int].2@));
                        assert(scale_at_cycle(iv, cycle_count as nat) == Some(sc@));
                    }
                    return Some(sc);
                }
                j += 1;
            }
            assert(iv.skip(j as int) =~= Seq::<(usize, usize, SScale)>::empty());
            fallback
        },
        _ => fallback,
    }
}

/// The tracks that play in a cycle, by index: none under `#SILENCE`,
/// otherwise every track that is not muted, in order.
pub open spec fn playing_tracks(tracks: Seq<crate::ast::STrack>, silent: bool) -> Seq<usize>
    decreases tracks.len(),
{
    if silent || tracks.len() == 0 {
        Seq::empty()
    } else {
        let rest = playing_tracks(tracks.drop_last(), silent);
        if tracks.last().is_muted {
            rest
        } else {
            rest.push((tracks.len() - 1) as usize)
        }
    }
}

/// The indices of the tracks that play: none when the program is silenced,
/// and never a muted track.
pub fn tracks_to_render(program: &Program) -> (r: Vec<usize>)
    ensures
        r@ == playing_tracks(program@.tracks, program.global_silence),
        forall|k: int| 0 <= k < r@.len() ==> (#[trigger] r@[k]) < program.tracks@.len() && !program.tracks@[r@[k] as int].is_muted,
        program.global_silence ==> r@.len() == 0,
{
    let ghost tv = program@.tracks;
    let mut out: Vec<usize> = Vec::new();
    if program.global_silence {
        return out;
    }
    let mut i: usize = 0;
    while i < program.tracks.len()
        invariant
            0 <= i <= program.tracks@.len(),
            tv == program@.tracks,
            tv.len() == program.tracks@.len(),
            !program.global_silence,
            out@ == playing_tracks(tv.take(i as int), false),
            forall|k: int| 0 <= k < out@.len() ==> (#[trigger] out@[k]) < i && !program.tracks@[out@[k] as int].is_muted,
        decreases program.tracks.len() - i,
    {
        proof {
            assert(tv.take(i + 1).drop_last() =~= tv.take(i as int));
            assert(tv.take(i + 1).last() == tv[i as int]);
            assert(tv[i as int].is_muted == program.tracks@[i as int].is_muted);
        }
        if !program.tracks[i].is_muted {
            out.push(i);
        }
        i += 1;
    }
    assert(tv.take(i as int) =~= tv);
    out
}

/// The scale a track plays in: its own, else the global one; the drum
/// channel (9) ignores the global scale.
pub fn track_scale(track: &Track, global: &Option<ScaleDef>) -> (r: Option<ScaleDef>)
    ensures
        opt_scale_view(r) == (if track.channel == 9 || track.scale is Some {
            opt_scale_view(track.scale)
        } else {
            opt_scale_view(*global)
        }),
{
    match &track.scale {
        Some(sc) => Some(clone_scale(sc)),
        None => {
            if track.channel == 9 {
                None
            } else {
                match global {
                    Some(g) => Some(clone_scale(g)),
                    None => None,
                }
            }
        },
    }
}

/// How far into the song a cycle is, counted in pattern lengths.
pub fn macro_cycle_index(cycle_count: usize, pattern_len: usize) -> (r: usize)
    ensures
        r == cycle_count / (if pattern_len == 0 { 1 } else { pattern_len }),
{
    let l: usize = if pattern_len == 0 {
        1
    } else {
        pattern_len
    };
    cycle_count / l
}

/// The bump a seed interval adds to a track's seed in a cycle.
pub open spec fn seed_bump(interval: SeedInterval, cycle_count: nat, macro_cycle: nat, track_len: nat) -> nat {
    match interval {
        SeedInterval::Macro(m) => macro_cycle / (m as nat),
        SeedInterval::Track(t) => (cycle_count / track_len) / (t as nat),
        SeedInterval::Micro(m) => cycle_count / (m as nat),
    }
}

/// A seed interval of 0 cannot bump.
pub open spec fn interval_ok(interval: Option<SeedInterval>) -> bool {
    match interval {
        Some(SeedInterval::Macro(m)) => m > 0,
        Some(SeedInterval::Track(t)) => t > 0,
        Some(SeedInterval::Micro(m)) => m > 0,
        None => true,
    }
}

/// A track's seed in a cycle: the base, bumped by its interval (wrapping).
/// `track_len` is the track's cycle length, at least 1.
pub fn seed_for_cycle(seed: &SeedDef, cycle_count: usize, macro_cycle: usize, track_len: usize) -> (r: u64)
    requires
        interval_ok(seed.interval),
        track_len > 0,
    ensures
        r == match seed.interval {
            Some(iv) => ((seed.base as nat + seed_bump(iv, cycle_count as nat, macro_cycle as nat, track_len as nat)) % 0x1_0000_0000_0000_0000) as u64,
            None => seed.base,
        },
{
    match seed.interval {
        Some(iv) => {
            let bump: usize = match iv {
                SeedInterval::Macro(m) => macro_cycle / m,
                SeedInterval::Track(t) => (cycle_count / track_len) / t,
                SeedInterval::Micro(m) => cycle_count / m,
            };
            proof {
                assert(bump <= u64::MAX);
            }
            seed.base.wrapping_add(bump as u64)
        },
        None => seed.base,
    }
}

} // verus!

//! What the chord modifiers do to the pitches of notes that sound together:
//! transposing, inverting, dropping a voice, extracting voices, folding
//! into an octave, and collapsing into one chord.
use vstd::prelude::*;
use crate::ast::{ExtractType, ScaleDef};
use crate::arp::{is_sorted_unique_of, sort_unique_notes};
use crate::math::clamp_midi;

verus! {

/// Moves a pitch by `amt` semitones, kept within 0..=127.
pub fn transpose_pitch(p: u8, amt: i32) -> (r: u8)
    ensures
        r == clamp_midi(p + amt),
{
    let x: i64 = p as i64 + amt as i64;
    if x < 0 {
        0
    } else if x > 127 {
        127
    } else {
        x as u8
    }
}

/// How many of the `amount` inversion steps land on voice `j` of `n`:
/// steps go round the voices from the bottom (upward) or from the top
/// (downward).
pub open spec fn inversion_hits(n: int, amount: int, j: int) -> int {
    if amount > 0 {
        amount / n + if j < amount % n { 1int } else { 0int }
    } else if amount < 0 {
        (-amount) / n + if n - 1 - j < (-amount) % n { 1int } else { 0int }
    } else {
        0
    }
}

/// The voices after inverting by `amount`: each step raises the next voice
/// from the bottom by an octave (or, for a negative amount, lowers the next
/// voice from the top), within 0..=127.
pub open spec fn invert_spec(ps: Seq<u8>, amount: i32) -> Seq<u8> {
    Seq::new(
        ps.len(),
        |j: int|
            {
                let c = inversion_hits(ps.len() as int, amount as int, j);
                if c == 0 {
                    ps[j]
                } else if amount > 0 {
                    clamp_midi(ps[j] + 12 * c)
                } else {
                    clamp_midi(ps[j] - 12 * c)
                }
            },
    )
}

/// Inverts the voices of a chord.
pub fn invert_voices(ps: &Vec<u8>, amount: i32) -> (r: Vec<u8>)
    ensures
        r@ == invert_spec(ps@, amount),
{
    let n = ps.len();
    let mut out: Vec<u8> = Vec::new();
    let mut j: usize = 0;
    while j < n
        invariant
            0 <= j <= n,
            n == ps@.len(),
            out@ == invert_spec(ps@, amount).take(j as int),
        decreases n - j,
    {
        let mag: u64 = if amount >= 0 {
            amount as u64
        } else if amount == i32::MIN {
            0x8000_0000
        } else {
            (-amount) as u64
        };
        let n64 = n as u64;
        let pos: u64 = if amount > 0 {
            j as u64
        } else {
            (n - 1 - j) as u64
        };
        let c64: u64 = if amount == 0 {
            0
        } else {
            mag / n64 + if pos < mag % n64 {
                1
            } else {
                0
            }
        };
        assert(c64 <= 0x8000_0001) by (nonlinear_arith)
            requires
                mag <= 0x8000_0000,
                n64 >= 1,
                c64 <= mag / n64 + 1,
        ;
        let c: i64 = c64 as i64;
        let a: i64 = amount as i64;
        proof {
            assert(c == inversion_hits(n as int, amount as int, j as int));
            assert(0 <= c <= 0x1_0000_0000);
        }
        let x: u8 = if c == 0 {
            ps[j]
        } else if a > 0 {
            let v: i64 = ps[j] as i64 + 12 * c;
            if v > 127 {
                127
            } else {
                v as u8
            }
        } else {
            let v: i64 = ps[j] as i64 - 12 * c;
            if v < 0 {
                0
            } else if v > 127 {
                127
            } else {
                v as u8
            }
        };
        proof {
            assert(invert_spec(ps@, amount).take(j + 1) =~= invert_spec(ps@, amount).take(j as int).push(x));
        }
        out.push(x);
        j += 1;
    }
    assert(invert_spec(ps@, amount).take(n as int) =~= invert_spec(ps@, amount));
    out
}

/// The voices after dropping voice `voice` (counted from the top) an octave.
pub open spec fn drop_spec(ps: Seq<u8>, voice: u8) -> Seq<u8> {
    if voice > 0 && ps.len() >= voice {
        ps.update(ps.len() - voice, clamp_midi(ps[ps.len() - voice] - 12))
    } else {
        ps
    }
}

/// Drops the `voice`-th voice from the top by an octave.
pub fn drop_voice(ps: &Vec<u8>, voice: u8) -> (r: Vec<u8>)
    ensures
        r@ == drop_spec(ps@, voice),
{
    let mut out = ps.clone();
    let v = voice as usize;
    if voice > 0 && ps.len() >= v {
        let k = ps.len() - v;
        let lowered = transpose_pitch(ps[k], -12);
        out.set(k, lowered);
    }
    out
}

/// The voices that remain after an offset and a limit: a positive offset
/// skips voices from the front, a negative one from the back; a positive
/// limit keeps that many from the front, a negative one that many from the
/// back (all of them when there are not more), and a limit of 0 keeps none.
pub open spec fn offset_limit<A>(s: Seq<A>, limit: Option<i32>, offset: i32) -> Seq<A> {
    let len = s.len() as int;
    let t: Seq<A> = if offset > 0 {
        s.skip(if offset as int <= len { offset as int } else { len })
    } else if offset < 0 {
        s.take(len - if -(offset as int) <= len { -(offset as int) } else { len })
    } else {
        s
    };
    let cur = t.len() as int;
    match limit {
        Some(l) => if l > 0 {
            t.take(if l as int <= cur { l as int } else { cur })
        } else if l < 0 {
            if -(l as int) < cur {
                t.skip(cur + l as int)
            } else {
                t
            }
        } else {
            Seq::empty()
        },
        None => t,
    }
}

fn copy_range<T: Copy>(v: &Vec<T>, lo: usize, hi: usize) -> (r: Vec<T>)
    requires
        lo <= hi <= v@.len(),
    ensures
        r@ == v@.subrange(lo as int, hi as int),
{
    let mut out: Vec<T> = Vec::new();
    let mut i = lo;
    while i < hi
        invariant
            lo <= i <= hi <= v@.len(),
            out@ == v@.subrange(lo as int, i as int),
        decreases hi - i,
    {
        out.push(v[i]);
        proof {
            assert(v@.subrange(lo as int, i + 1) =~= v@.subrange(lo as int, i as int).push(v@[i as int]));
        }
        i += 1;
    }
    out
}

/// Applies an offset and a limit to a list of voices.
pub fn apply_offset_limit<T: Copy>(v: &Vec<T>, limit: Option<i32>, offset: i32) -> (r: Vec<T>)
    ensures
        r@ == offset_limit(v@, limit, offset),
{
    let len = v.len();
    let t: Vec<T> = if offset > 0 {
        let o: usize = if (offset as u64) <= (len as u64) {
            offset as usize
        } else {
            len
        };
        let r = copy_range(v, o, len);
        assert(r@ =~= v@.skip(o as int));
        r
    } else if offset < 0 {
        let mag: u64 = if offset == i32::MIN {
            0x8000_0000
        } else {
            (-offset) as u64
        };
        let o: usize = if mag <= (len as u64) {
            mag as usize
        } else {
            len
        };
        let r = copy_range(v, 0, len - o);
        assert(r@ =~= v@.take(len - o));
        r
    } else {
        copy_range(v, 0, len)
    };
    proof {
        assert(v@.subrange(0, len as int) =~= v@);
    }
    let cur = t.len();
    match limit {
        Some(l) => {
            if l > 0 {
                let k: usize = if (l as u64) <= (cur as u64) {
                    l as usize
                } else {
                    cur
                };
                let r = copy_range(&t, 0, k);
                assert(r@ =~= t@.take(k as int));
                r
            } else if l < 0 {
                let take: u64 = if l == i32::MIN {
                    0x8000_0000
                } else {
                    (-l) as u64
                };
                if take < (cur as u64) {
                    let r = copy_range(&t, cur - take as usize, cur);
                    assert(r@ =~= t@.skip(cur - take));
                    r
                } else {
                    t
                }
            } else {
                Vec::new()
            }
        },
        None => t,
    }
}

/// The positions within a group of `len` notes (lowest first) that an
/// extraction keeps, in the order it lists them: from the top for
/// `Highest`, from the bottom for `Lowest`, then offset and limit.
pub open spec fn extract_spec(len: nat, ext: ExtractType, limit: Option<i32>, offset: i32) -> Seq<usize> {
    let base: Seq<usize> = match ext {
        ExtractType::Highest => Seq::new(len, |i: int| (len - 1 - i) as usize),
        ExtractType::Lowest => Seq::new(len, |i: int| i as usize),
    };
    offset_limit(base, limit, offset)
}

/// The positions an extraction keeps.
pub fn extract_positions(len: usize, ext: ExtractType, limit: Option<i32>, offset: i32) -> (r: Vec<usize>)
    ensures
        r@ == extract_spec(len as nat, ext, limit, offset),
{
    let mut base: Vec<usize> = Vec::new();
    let mut i: usize = 0;
    let ghost want: Seq<usize> = match ext {
        ExtractType::Highest => Seq::new(len as nat, |k: int| (len - 1 - k) as usize),
        ExtractType::Lowest => Seq::new(len as nat, |k: int| k as usize),
    };
    while i < len
        invariant
            0 <= i <= len,
            want == (match ext {
                ExtractType::Highest => Seq::new(len as nat, |k: int| (len - 1 - k) as usize),
                ExtractType::Lowest => Seq::new(len as nat, |k: int| k as usize),
            }),
            base@ == want.take(i as int),
        decreases len - i,
    {
        let x = match ext {
            ExtractType::Highest => len - 1 - i,
            ExtractType::Lowest => i,
        };
        proof {
            assert(want.take(i + 1) =~= want.take(i as int).push(x));
        }
        base.push(x);
        i += 1;
    }
    assert(want.take(len as int) =~= want);
    apply_offset_limit(&base, limit, offset)
}

/// The distinct pitches, rising.
pub open spec fn is_pitch_set_of(r: Seq<u8>, ps: Seq<u8>) -> bool {
    &&& forall|i: int, j: int| 0 <= i < j < r.len() ==> #[trigger] r[i] < #[trigger] r[j]
    &&& forall|x: u8| r.contains(x) <==> ps.contains(x)
}

/// The distinct pitches of `ps`, rising.
pub fn distinct_pitches(ps: &Vec<u8>) -> (r: Vec<u8>)
    ensures
        is_pitch_set_of(r@, ps@),
{
    let mut notes: Vec<(u8, u8)> = Vec::new();
    let mut i: usize = 0;
    while i < ps.len()
        invariant
            0 <= i <= ps@.len(),
            notes@.len() == i,
            forall|k: int| 0 <= k < i ==> #[trigger] notes@[k] == (ps@[k], 0u8),
        decreases ps.len() - i,
    {
        notes.push((ps[i], 0));
        i += 1;
    }
    let sorted = sort_unique_notes(&notes);
    let mut out: Vec<u8> = Vec::new();
    let mut k: usize = 0;
    while k < sorted.len()
        invariant
            0 <= k <= sorted@.len(),
            out@.len() == k,
            forall|m: int| 0 <= m < k ==> #[trigger] out@[m] == sorted@[m].0,
        decreases sorted.len() - k,
    {
        out.push(sorted[k].0);
        k += 1;
    }
    proof {
        assert(is_sorted_unique_of(sorted@, notes@));
        assert forall|a: int, b: int| 0 <= a < b < out@.len() implies #[trigger] out@[a] < #[trigger] out@[b] by {
            assert(sorted@[a].0 < sorted@[b].0);
        }
        assert forall|x: u8| out@.contains(x) implies ps@.contains(x) by {
            let m = choose|m: int| 0 <= m < out@.len() && out@[m] == x;
            let fi = crate::arp::first_with_pitch(notes@, sorted@[m].0);
            assert(notes@[fi] == sorted@[m]);
            assert(ps@[fi] == x);
        }
        assert forall|x: u8| ps@.contains(x) implies out@.contains(x) by {
            let i0 = choose|i0: int| 0 <= i0 < ps@.len() && ps@[i0] == x;
            assert(notes@[i0].0 == x);
            let m = choose|m: int| 0 <= m < sorted@.len() && #[trigger] sorted@[m].0 == #[trigger] notes@[i0].0;
            assert(out@[m] == x);
        }
    }
    out
}

/// The pitches of a collapsed chord: the distinct pitches, rising, after
/// offset and limit.
pub fn chordify_pitches(ps: &Vec<u8>, limit: Option<i32>, offset: i32) -> (r: Vec<u8>)
    ensures
        exists|d: Seq<u8>| is_pitch_set_of(d, ps@) && r@ == offset_limit(d, limit, offset),
{
    let d = distinct_pitches(ps);
    let r = apply_offset_limit(&d, limit, offset);
    assert(is_pitch_set_of(d@, ps@) && r@ == offset_limit(d@, limit, offset));
    r
}

/// The velocity of a collapsed chord: the override, else the loudest note,
/// else 100.
pub fn chord_velocity(max_vel: u8, override_velocity: Option<u8>) -> (r: u8)
    ensures
        r == match override_velocity {
            Some(v) => v,
            None => if max_vel > 0 { max_vel } else { 100 },
        },
{
    match override_velocity {
        Some(v) => v,
        None => if max_vel > 0 {
            max_vel
        } else {
            100
        },
    }
}

/// The distance from the base after folding: within one octave below the
/// base and eleven semitones above it, moving by whole octaves.
pub open spec fn fold_diff(d: int) -> int {
    if d < -12 {
        let m = (-d) % 12;
        if m == 0 {
            -12
        } else {
            -m
        }
    } else if d > 11 {
        d % 12
    } else {
        d
    }
}

/// The note that a wrap modifier folds towards: the scale's root, or middle
/// C, moved by the track's octaves.
pub open spec fn wrap_base_spec(scale: Option<crate::ast::SScale>, octave_offset: i32) -> int {
    match scale {
        Some(sc) => sc.root_pitch + octave_offset * 12,
        None => 60 + octave_offset * 12,
    }
}

pub fn wrap_base(scale: &Option<ScaleDef>, octave_offset: i32) -> (r: i64)
    ensures
        r == wrap_base_spec(crate::ast::opt_scale_view(*scale), octave_offset),
{
    let shift: i64 = octave_offset as i64 * 12;
    match scale {
        Some(sc) => sc.root_pitch as i64 + shift,
        None => 60 + shift,
    }
}

/// Folds a pitch into the window round `base`.
pub fn wrap_pitch(p: u8, base: i64) -> (r: u8)
    requires
        -0x1_0000_0000 <= base <= 0x1_0000_0000,
    ensures
        r == clamp_midi(base + fold_diff(p - base)),
{
    let d: i64 = p as i64 - base;
    let f: i64 = if d < -12 {
        let m: i64 = (-d) % 12;
        if m == 0 {
            -12
        } else {
            -m
        }
    } else if d > 11 {
        d % 12
    } else {
        d
    };
    let folded: i64 = base + f;
    if folded < 0 {
        0
    } else if folded > 127 {
        127
    } else {
        folded as u8
    }
}

/// Folding keeps the pitch class and lands within the window round the base.
pub proof fn law_fold_keeps_pitch_class(d: int)
    ensures
        -12 <= fold_diff(d) <= 11,
        (d - fold_diff(d)) % 12 == 0,
{
    if d < -12 {
        let m = (-d) % 12;
        vstd::arithmetic::div_mod::lemma_fundamental_div_mod(-d, 12);
        let q = (-d) / 12;
        if m == 0 {
            assert(d - (-12) == 12 * (1 - q));
            vstd::arithmetic::div_mod::lemma_mod_multiples_basic(1 - q, 12);
            assert((1 - q) * 12 == 12 * (1 - q));
        } else {
            assert(d - (-m) == 12 * (-q));
            vstd::arithmetic::div_mod::lemma_mod_multiples_basic(-q, 12);
            assert((-q) * 12 == 12 * (-q));
        }
    } else if d > 11 {
        vstd::arithmetic::div_mod::lemma_fundamental_div_mod(d, 12);
        let q = d / 12;
        assert(d - d % 12 == 12 * q);
        vstd::arithmetic::div_mod::lemma_mod_multiples_basic(q, 12);
        assert(q * 12 == 12 * q);
    } else {
        assert(0int % 12 == 0);
    }
}

/// Inverting by the number of voices raises every voice by an octave.
pub proof fn law_full_inversion(ps: Seq<u8>)
    requires
        0 < ps.len() <= i32::MAX,
    ensures
        forall|j: int| 0 <= j < ps.len() ==> #[trigger] invert_spec(ps, ps.len() as i32)[j] == clamp_midi(ps[j] + 12),
{
    let n = ps.len() as int;
    assert forall|j: int| 0 <= j < ps.len() implies #[trigger] invert_spec(ps, ps.len() as i32)[j] == clamp_midi(ps[j] + 12) by {
        assert(n / n == 1) by (nonlinear_arith)
            requires
                n > 0,
        ;
        assert(n % n == 0) by (nonlinear_arith)
            requires
                n > 0,
        ;
    }
}


/// Law: dropping voice `voice` (counted from the top, 1 being the highest)
/// lowers exactly the voice with `voice - 1` voices above it by an octave,
/// within 0..=127, and leaves every other voice where it was; a voice
/// number of 0, or above the number of voices, changes nothing.
pub proof fn law_drop_voice_from_top(ps: Seq<u8>, voice: u8)
    ensures
        drop_spec(ps, voice).len() == ps.len(),
        forall|k: int|
            0 <= k < ps.len() && 0 < voice && ps.len() - 1 - k == voice - 1 ==> #[trigger] drop_spec(ps, voice)[k]
                == clamp_midi(ps[k] - 12),
        forall|k: int|
            0 <= k < ps.len() && !(0 < voice && ps.len() - 1 - k == voice - 1) ==> #[trigger] drop_spec(ps, voice)[k]
                == ps[k],
{
}

/// Where `a + 1` falls against `n` once `a` is known: the remainder moves
/// on by one, or wraps to 0 and the quotient moves on.
proof fn lemma_next_div(a: int, n: int)
    requires
        a >= 0,
        n > 0,
    ensures
        a % n < n - 1 ==> (a + 1) / n == a / n && (a + 1) % n == a % n + 1,
        a % n == n - 1 ==> (a + 1) / n == a / n + 1 && (a + 1) % n == 0,
        0 <= a % n < n,
{
    vstd::arithmetic::div_mod::lemma_fundamental_div_mod(a, n);
    let q = a / n;
    let r = a % n;
    if r < n - 1 {
        assert(a + 1 == q * n + (r + 1)) by (nonlinear_arith)
            requires
                a == n * q + r,
        ;
        vstd::arithmetic::div_mod::lemma_fundamental_div_mod_converse(a + 1, n, q, r + 1);
    } else {
        assert(a + 1 == (q + 1) * n + 0) by (nonlinear_arith)
            requires
                a == n * q + r,
                r == n - 1,
        ;
        vstd::arithmetic::div_mod::lemma_fundamental_div_mod_converse(a + 1, n, q + 1, 0);
    }
}

/// Law: an inversion by `amount`, with `0 < amount <` the number of voices,
/// raises exactly the `amount` lowest voices by an octave (within
/// 0..=127); with `-`(number of voices) `< amount < 0` it lowers exactly
/// the `-amount` highest voices. Every other voice stays.
pub proof fn law_invert_within_one_round(ps: Seq<u8>, amount: i32)
    requires
        0 < amount < ps.len() || 0 < -amount < ps.len(),
    ensures
        invert_spec(ps, amount).len() == ps.len(),
        amount > 0 ==> forall|j: int| 0 <= j < amount ==> #[trigger] invert_spec(ps, amount)[j] == clamp_midi(ps[j] + 12),
        amount < 0 ==> forall|j: int|
            ps.len() + amount <= j < ps.len() ==> #[trigger] invert_spec(ps, amount)[j] == clamp_midi(ps[j] - 12),
        forall|j: int|
            0 <= j < ps.len() && (amount > 0 ==> j >= amount) && (amount < 0 ==> j < ps.len() + amount)
                ==> #[trigger] invert_spec(ps, amount)[j] == ps[j],
{
    let n = ps.len() as int;
    let m: int = if amount > 0 { amount as int } else { -amount };
    vstd::arithmetic::div_mod::lemma_fundamental_div_mod_converse(m, n, 0, m);
}

/// Law: each further upward inversion step raises one more voice by an
/// octave, going round the voices from the bottom: step `a + 1` raises
/// voice `a mod n` of the chord inverted `a` times, and no other; with no
/// step at all the chord is as it was.
pub proof fn law_invert_step_up(ps: Seq<u8>, a: i32)
    requires
        ps.len() > 0,
        0 <= a < i32::MAX,
    ensures
        invert_spec(ps, 0) == ps,
        forall|j: int|
            0 <= j < ps.len() ==> #[trigger] invert_spec(ps, (a + 1) as i32)[j] == if j == (a as int) % (ps.len() as int) {
                clamp_midi(invert_spec(ps, a)[j] + 12)
            } else {
                invert_spec(ps, a)[j]
            },
{
    let n = ps.len() as int;
    let ai = a as int;
    assert(invert_spec(ps, 0) =~= ps);
    lemma_next_div(ai, n);
    assert(ai / n >= 0) by (nonlinear_arith)
        requires
            ai >= 0,
            n > 0,
    ;
    assert forall|j: int| 0 <= j < ps.len() implies #[trigger] invert_spec(ps, (a + 1) as i32)[j] == if j == (a as int)
        % n {
        clamp_midi(invert_spec(ps, a)[j] + 12)
    } else {
        invert_spec(ps, a)[j]
    } by {
        let c0 = inversion_hits(n, a as int, j);
        let c1 = inversion_hits(n, a + 1, j);
        if a == 0 {
            vstd::arithmetic::div_mod::lemma_fundamental_div_mod_converse(0, n, 0, 0);
        }
        assert(c0 == ai / n + if j < ai % n { 1int } else { 0int });
        assert(c1 == (ai + 1) / n + if j < (ai + 1) % n { 1int } else { 0int });
        if ai % n < n - 1 {
            assert(c1 == c0 + if j == ai % n { 1int } else { 0int });
        } else {
            assert(c1 == c0 + if j == ai % n { 1int } else { 0int });
        }
    }
}

/// Law: each further downward inversion step lowers one more voice by an
/// octave, going round the voices from the top: step `a + 1` lowers voice
/// `n - 1 - (a mod n)` of the chord inverted `-a` times, and no other
/// (for voices that are MIDI notes, 0..=127).
pub proof fn law_invert_step_down(ps: Seq<u8>, a: i32)
    requires
        ps.len() > 0,
        forall|j: int| 0 <= j < ps.len() ==> #[trigger] ps[j] <= 127,
        0 <= a < i32::MAX,
    ensures
        forall|j: int|
            0 <= j < ps.len() ==> #[trigger] invert_spec(ps, -(a + 1) as i32)[j] == if j == ps.len() - 1 - (a as int) % (
            ps.len() as int) {
                clamp_midi(invert_spec(ps, -a as i32)[j] - 12)
            } else {
                invert_spec(ps, -a as i32)[j]
            },
{
    let n = ps.len() as int;
    let ai = a as int;
    lemma_next_div(ai, n);
    assert(ai / n >= 0) by (nonlinear_arith)
        requires
            ai >= 0,
            n > 0,
    ;
    assert forall|j: int| 0 <= j < ps.len() implies #[trigger] invert_spec(ps, -(a + 1) as i32)[j] == if j == n - 1 - (
    a as int) % n {
        clamp_midi(invert_spec(ps, -a as i32)[j] - 12)
    } else {
        invert_spec(ps, -a as i32)[j]
    } by {
        let m0 = -a as i32;
        let m1 = -(a + 1) as i32;
        assert(m0 as int == -ai && m1 as int == -(ai + 1));
        let c0 = inversion_hits(n, -a, j);
        let c1 = inversion_hits(n, -(a + 1), j);
        assert(invert_spec(ps, m0)[j] == if c0 == 0 { ps[j] } else { clamp_midi(ps[j] - 12 * c0) });
        assert(invert_spec(ps, m1)[j] == if c1 == 0 { ps[j] } else { clamp_midi(ps[j] - 12 * c1) });
        if a == 0 {
            vstd::arithmetic::div_mod::lemma_fundamental_div_mod_converse(0, n, 0, 0);
        }
        assert(c0 == ai / n + if n - 1 - j < ai % n { 1int } else { 0int });
        assert(c1 == (ai + 1) / n + if n - 1 - j < (ai + 1) % n { 1int } else { 0int });
        if ai % n < n - 1 {
            assert(c1 == c0 + if n - 1 - j == ai % n { 1int } else { 0int });
        } else {
            assert(c1 == c0 + if n - 1 - j == ai % n { 1int } else { 0int });
        }
        assert(c0 >= 0);
        if j == n - 1 - ai % n {
            assert(c1 == c0 + 1);
            assert(invert_spec(ps, m1)[j] == clamp_midi(invert_spec(ps, m0)[j] - 12));
        } else {
            assert(c1 == c0);
            assert(invert_spec(ps, m1)[j] == invert_spec(ps, m0)[j]);
        }
    }
}

} // verus!

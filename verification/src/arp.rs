//! Arpeggiator orders: the notes of a chord, sorted by pitch with repeated
//! pitches removed, laid out in the order of an `ArpStyle`.
use vstd::prelude::*;
use crate::ast::ArpStyle;

verus! {

/// Pitches strictly rise along the sequence.
pub open spec fn strictly_rising(s: Seq<(u8, u8)>) -> bool {
    forall|i: int, j: int| 0 <= i < j < s.len() ==> #[trigger] s[i].0 < #[trigger] s[j].0
}

/// The position of the first note in `notes` with pitch `p`.
pub open spec fn first_with_pitch(notes: Seq<(u8, u8)>, p: u8) -> int
    decreases notes.len(),
{
    if notes.len() == 0 {
        -1
    } else if notes[0].0 == p {
        0
    } else {
        let r = first_with_pitch(notes.drop_first(), p);
        if r < 0 {
            -1
        } else {
            r + 1
        }
    }
}

/// `r` holds each pitch of `notes` once, rising, each with the velocity of
/// the first note of that pitch.
pub open spec fn is_sorted_unique_of(r: Seq<(u8, u8)>, notes: Seq<(u8, u8)>) -> bool {
    &&& strictly_rising(r)
    &&& forall|k: int| 0 <= k < r.len() ==> {
        let i = #[trigger] first_with_pitch(notes, r[k].0);
        0 <= i < notes.len() && notes[i] == r[k]
    }
    &&& forall|i: int| 0 <= i < notes.len() ==> exists|k: int| 0 <= k < r.len() && #[trigger] r[k].0 == #[trigger] notes[i].0
}

pub proof fn lemma_first_with_pitch(notes: Seq<(u8, u8)>, p: u8)
    ensures
        -1 <= first_with_pitch(notes, p) < notes.len(),
        first_with_pitch(notes, p) >= 0 ==> notes[first_with_pitch(notes, p)].0 == p,
        first_with_pitch(notes, p) >= 0 ==> forall|j: int| 0 <= j < first_with_pitch(notes, p) ==> #[trigger] notes[j].0 != p,
        first_with_pitch(notes, p) < 0 ==> forall|j: int| 0 <= j < notes.len() ==> #[trigger] notes[j].0 != p,
    decreases notes.len(),
{
    if notes.len() > 0 && notes[0].0 != p {
        lemma_first_with_pitch(notes.drop_first(), p);
        assert forall|j: int| 1 <= j < notes.len() implies #[trigger] notes[j] == notes.drop_first()[j - 1] by {}
    }
}

/// `first_with_pitch` over a prefix that already holds the pitch.
proof fn lemma_first_in_prefix(notes: Seq<(u8, u8)>, n: int, p: u8)
    requires
        0 <= n <= notes.len(),
        first_with_pitch(notes.take(n), p) >= 0,
    ensures
        first_with_pitch(notes, p) == first_with_pitch(notes.take(n), p),
{
    lemma_first_with_pitch(notes, p);
    lemma_first_with_pitch(notes.take(n), p);
    let a = first_with_pitch(notes, p);
    let b = first_with_pitch(notes.take(n), p);
    assert(notes.take(n)[b] == notes[b]);
    if a < b {
        assert(notes.take(n)[a] == notes[a]);
    }
}

/// `first_with_pitch` over a prefix that does not hold the pitch, extended
/// by one note of that pitch.
proof fn lemma_first_new(notes: Seq<(u8, u8)>, n: int, p: u8)
    requires
        0 <= n < notes.len(),
        first_with_pitch(notes.take(n), p) < 0,
        notes[n].0 == p,
    ensures
        first_with_pitch(notes, p) == n,
{
    lemma_first_with_pitch(notes, p);
    lemma_first_with_pitch(notes.take(n), p);
    let a = first_with_pitch(notes, p);
    if a < n && a >= 0 {
        assert(notes.take(n)[a] == notes[a]);
    }
    if a > n {
        assert(notes[n].0 != p);
    }
}

/// Sorts notes by pitch and keeps the first note of each pitch.
pub fn sort_unique_notes(notes: &Vec<(u8, u8)>) -> (r: Vec<(u8, u8)>)
    ensures
        is_sorted_unique_of(r@, notes@),
{
    let mut out: Vec<(u8, u8)> = Vec::new();
    let mut i: usize = 0;
    while i < notes.len()
        invariant
            0 <= i <= notes@.len(),
            is_sorted_unique_of(out@, notes@.take(i as int)),
        decreases notes.len() - i,
    {
        let ghost pre = notes@.take(i as int);
        let ghost nxt = notes@.take(i + 1);
        let (p, v) = notes[i];
        // the first position in `out` whose pitch is at least p
        let mut k: usize = 0;
        while k < out.len() && out[k].0 < p
            invariant
                0 <= k <= out@.len(),
                forall|j: int| 0 <= j < k ==> #[trigger] out@[j].0 < p,
            decreases out.len() - k,
        {
            k += 1;
        }
        proof {
            assert(nxt.take(i as int) =~= pre);
            assert(nxt[i as int] == (p, v));
            assert forall|q: u8| first_with_pitch(pre, q) >= 0 implies first_with_pitch(nxt, q)
                == first_with_pitch(pre, q) by {
                lemma_first_in_prefix(nxt, i as int, q);
            }
        }
        if k < out.len() && out[k].0 == p {
            // the pitch is already there: the note is dropped
            proof {
                let ghost o = out@;
                assert(first_with_pitch(pre, o[k as int].0) >= 0);
                assert forall|kk: int| 0 <= kk < o.len() implies {
                    let ii = #[trigger] first_with_pitch(nxt, o[kk].0);
                    0 <= ii < nxt.len() && nxt[ii] == o[kk]
                } by {
                    assert(first_with_pitch(pre, o[kk].0) >= 0);
                    assert(pre[first_with_pitch(pre, o[kk].0)] == nxt[first_with_pitch(pre, o[kk].0)]);
                }
                assert forall|ii: int| 0 <= ii < nxt.len() implies exists|kk: int|
                    0 <= kk < o.len() && #[trigger] o[kk].0 == #[trigger] nxt[ii].0 by {
                    if ii < i {
                        assert(nxt[ii] == pre[ii]);
                        let w = choose|kk: int| 0 <= kk < o.len() && #[trigger] o[kk].0 == #[trigger] pre[ii].0;
                        assert(o[w].0 == nxt[ii].0);
                    } else {
                        assert(o[k as int].0 == nxt[ii].0);
                    }
                }
            }
        } else {
            let ghost o = out@;
            out.insert(k, (p, v));
            proof {
                lemma_first_with_pitch(pre, p);
                if first_with_pitch(pre, p) >= 0 {
                    let w = first_with_pitch(pre, p);
                    let kk = choose|kk: int| 0 <= kk < o.len() && #[trigger] o[kk].0 == #[trigger] pre[w].0;
                    if kk < k {
                        assert(o[kk].0 < p);
                    } else if kk > k {
                        assert(o[k as int].0 <= o[kk].0);
                        assert(o[k as int].0 != p);
                    }
                    assert(false);
                }
                lemma_first_new(nxt, i as int, p);
                let r = out@;
                assert forall|a: int, b: int| 0 <= a < b < r.len() implies #[trigger] r[a].0 < #[trigger] r[b].0 by {
                    if a < k && b == k {
                    } else if a == k && b > k {
                        assert(r[b] == o[b - 1]);
                        assert(o[k as int].0 > p || o[k as int].0 == p);
                        if b - 1 > k {
                            assert(o[k as int].0 < o[b - 1].0);
                        }
                    } else if a < k && b > k {
                        assert(r[b] == o[b - 1]);
                    } else if a > k {
                        assert(r[a] == o[a - 1]);
                        assert(r[b] == o[b - 1]);
                    }
                }
                assert forall|kk: int| 0 <= kk < r.len() implies {
                    let ii = #[trigger] first_with_pitch(nxt, r[kk].0);
                    0 <= ii < nxt.len() && nxt[ii] == r[kk]
                } by {
                    if kk != k {
                        let src = if kk < k { kk } else { kk - 1 };
                        assert(r[kk] == o[src]);
                        assert(first_with_pitch(pre, o[src].0) >= 0);
                        assert(pre[first_with_pitch(pre, o[src].0)] == nxt[first_with_pitch(pre, o[src].0)]);
                    }
                }
                assert forall|ii: int| 0 <= ii < nxt.len() implies exists|kk: int|
                    0 <= kk < r.len() && #[trigger] r[kk].0 == #[trigger] nxt[ii].0 by {
                    if ii < i {
                        assert(nxt[ii] == pre[ii]);
                        let w = choose|kk: int| 0 <= kk < o.len() && #[trigger] o[kk].0 == #[trigger] pre[ii].0;
                        if w < k {
                            assert(r[w] == o[w]);
                        } else {
                            assert(r[w + 1] == o[w]);
                        }
                    } else {
                        assert(r[k as int].0 == nxt[ii].0);
                    }
                }
            }
        }
        i += 1;
    }
    assert(notes@.take(notes@.len() as int) =~= notes@);
    out
}


/// The sequence backwards.
pub open spec fn backwards(s: Seq<(u8, u8)>) -> Seq<(u8, u8)> {
    Seq::new(s.len(), |i: int| s[s.len() - 1 - i])
}

/// Outer notes first, closing in: lowest, highest, second lowest, ...
pub open spec fn converge(s: Seq<(u8, u8)>) -> Seq<(u8, u8)> {
    Seq::new(s.len(), |k: int| if k % 2 == 0 { s[k / 2] } else { s[s.len() - 1 - k / 2] })
}

/// Middle notes first, opening out.
pub open spec fn diverge(s: Seq<(u8, u8)>) -> Seq<(u8, u8)> {
    let n = s.len() as int;
    let mid = (n - 1) / 2;
    if n % 2 == 1 {
        Seq::new(
            s.len(),
            |k: int|
                if k == 0 {
                    s[mid]
                } else if (k - 1) % 2 == 0 {
                    s[mid - 1 - (k - 1) / 2]
                } else {
                    s[mid + 1 + (k - 1) / 2]
                },
        )
    } else {
        Seq::new(s.len(), |k: int| if k % 2 == 0 { s[mid - k / 2] } else { s[mid + 1 + k / 2] })
    }
}

/// Each note but the top, rising, alternating with the top note.
pub open spec fn pinky_up(s: Seq<(u8, u8)>) -> Seq<(u8, u8)> {
    Seq::new((2 * (s.len() - 1)) as nat, |k: int| if k % 2 == 0 { s[k / 2] } else { s[s.len() - 1] })
}

/// The inner notes from the third highest down to the second lowest,
/// alternating with the top note.
pub open spec fn pinky_down(s: Seq<(u8, u8)>) -> Seq<(u8, u8)> {
    let m: int = if s.len() >= 3 { s.len() - 3 } else { 0 };
    Seq::new((2 * m) as nat, |k: int| if k % 2 == 0 { s[s.len() - 3 - k / 2] } else { s[s.len() - 1] })
}

/// The order in which an arpeggio plays the sorted notes `s`.
pub open spec fn arp_order(s: Seq<(u8, u8)>, style: ArpStyle) -> Seq<(u8, u8)> {
    let n = s.len();
    match style {
        ArpStyle::Up => s,
        ArpStyle::Down => backwards(s),
        ArpStyle::UpDown => if n > 2 {
            s + backwards(s).subrange(1, n - 1)
        } else {
            s
        },
        ArpStyle::DownUp => if n > 2 {
            backwards(s) + s.subrange(1, n - 1)
        } else {
            backwards(s)
        },
        ArpStyle::Converge => converge(s),
        ArpStyle::Diverge => diverge(s),
        ArpStyle::PinkyUp => if n > 1 {
            pinky_up(s)
        } else {
            s
        },
        ArpStyle::PinkyUpDown => if n > 1 {
            pinky_up(s) + pinky_down(s)
        } else {
            s
        },
    }
}

fn push_range(out: &mut Vec<(u8, u8)>, s: &Vec<(u8, u8)>, lo: usize, hi: usize)
    requires
        lo <= hi <= s@.len(),
    ensures
        final(out)@ == old(out)@ + s@.subrange(lo as int, hi as int),
{
    let ghost start = out@;
    let mut i = lo;
    while i < hi
        invariant
            lo <= i <= hi <= s@.len(),
            out@ == start + s@.subrange(lo as int, i as int),
        decreases hi - i,
    {
        out.push(s[i]);
        proof {
            assert(s@.subrange(lo as int, i + 1) =~= s@.subrange(lo as int, i as int).push(s@[i as int]));
        }
        i += 1;
    }
}

fn push_backwards(out: &mut Vec<(u8, u8)>, s: &Vec<(u8, u8)>, lo: usize, hi: usize)
    requires
        lo <= hi <= s@.len(),
    ensures
        final(out)@ == old(out)@ + backwards(s@).subrange(lo as int, hi as int),
{
    let ghost start = out@;
    let n = s.len();
    let mut i = lo;
    while i < hi
        invariant
            lo <= i <= hi <= s@.len(),
            n == s@.len(),
            out@ == start + backwards(s@).subrange(lo as int, i as int),
        decreases hi - i,
    {
        out.push(s[n - 1 - i]);
        proof {
            assert(backwards(s@).subrange(lo as int, i + 1) =~= backwards(s@).subrange(lo as int, i as int).push(
                s@[n - 1 - i],
            ));
        }
        i += 1;
    }
}

/// Lays out the sorted notes `s` in the order of `style`.
pub fn arp_pattern(s: &Vec<(u8, u8)>, style: ArpStyle) -> (r: Vec<(u8, u8)>)
    ensures
        r@ == arp_order(s@, style),
{
    let n = s.len();
    let mut out: Vec<(u8, u8)> = Vec::new();
    match style {
        ArpStyle::Up => {
            push_range(&mut out, s, 0, n);
            assert(out@ =~= s@);
        },
        ArpStyle::Down => {
            push_backwards(&mut out, s, 0, n);
            assert(out@ =~= backwards(s@));
        },
        ArpStyle::UpDown => {
            push_range(&mut out, s, 0, n);
            if n > 2 {
                push_backwards(&mut out, s, 1, n - 1);
            }
            assert(out@ =~= arp_order(s@, style));
        },
        ArpStyle::DownUp => {
            push_backwards(&mut out, s, 0, n);
            if n > 2 {
                push_range(&mut out, s, 1, n - 1);
            }
            assert(out@ =~= arp_order(s@, style));
        },
        ArpStyle::Converge => {
            let mut k: usize = 0;
            while k < n
                invariant
                    0 <= k <= n,
                    n == s@.len(),
                    out@ == converge(s@).take(k as int),
                decreases n - k,
            {
                let x = if k % 2 == 0 {
                    s[k / 2]
                } else {
                    s[n - 1 - k / 2]
                };
                proof {
                    assert(converge(s@).take(k + 1) =~= converge(s@).take(k as int).push(x));
                }
                out.push(x);
                k += 1;
            }
            assert(out@ =~= converge(s@));
        },
        ArpStyle::Diverge => {
            if n > 0 {
                let mid = (n - 1) / 2;
                let mut k: usize = 0;
                while k < n
                    invariant
                        0 <= k <= n,
                        n == s@.len(),
                        n > 0,
                        mid == (n - 1) / 2,
                        out@ == diverge(s@).take(k as int),
                    decreases n - k,
                {
                    let x = if n % 2 == 1 {
                        if k == 0 {
                            s[mid]
                        } else if (k - 1) % 2 == 0 {
                            s[mid - 1 - (k - 1) / 2]
                        } else {
                            s[mid + 1 + (k - 1) / 2]
                        }
                    } else if k % 2 == 0 {
                        s[mid - k / 2]
                    } else {
                        s[mid + 1 + k / 2]
                    };
                    proof {
                        assert(diverge(s@).take(k + 1) =~= diverge(s@).take(k as int).push(x));
                    }
                    out.push(x);
                    k += 1;
                }
            }
            assert(out@ =~= diverge(s@));
        },
        ArpStyle::PinkyUp => {
            if n > 1 {
                push_pinky_up(&mut out, s);
                assert(out@ =~= pinky_up(s@));
            } else {
                push_range(&mut out, s, 0, n);
                assert(out@ =~= s@);
            }
        },
        ArpStyle::PinkyUpDown => {
            if n > 1 {
                push_pinky_up(&mut out, s);
                push_pinky_down(&mut out, s);
                assert(out@ =~= pinky_up(s@) + pinky_down(s@));
            } else {
                push_range(&mut out, s, 0, n);
                assert(out@ =~= s@);
            }
        },
    }
    out
}

fn push_pinky_up(out: &mut Vec<(u8, u8)>, s: &Vec<(u8, u8)>)
    requires
        s@.len() > 1,
    ensures
        final(out)@ == old(out)@ + pinky_up(s@),
{
    let ghost start = out@;
    let n = s.len();
    let mut i: usize = 0;
    while i < n - 1
        invariant
            0 <= i <= n - 1,
            n == s@.len(),
            n > 1,
            out@ == start + pinky_up(s@).take(2 * i),
        decreases n - 1 - i,
    {
        out.push(s[i]);
        out.push(s[n - 1]);
        proof {
            assert(pinky_up(s@).take(2 * i + 2) =~= pinky_up(s@).take(2 * i as int).push(s@[i as int]).push(
                s@[n - 1],
            ));
        }
        i += 1;
    }
    assert(pinky_up(s@).take(2 * (n - 1)) =~= pinky_up(s@));
}

fn push_pinky_down(out: &mut Vec<(u8, u8)>, s: &Vec<(u8, u8)>)
    requires
        s@.len() > 1,
    ensures
        final(out)@ == old(out)@ + pinky_down(s@),
{
    let ghost start = out@;
    let n = s.len();
    let m: usize = if n >= 3 {
        n - 3
    } else {
        0
    };
    let mut i: usize = 0;
    while i < m
        invariant
            0 <= i <= m,
            n == s@.len(),
            n > 1,
            m == (if n >= 3 { n - 3 } else { 0 }),
            out@ == start + pinky_down(s@).take(2 * i),
        decreases m - i,
    {
        out.push(s[n - 3 - i]);
        out.push(s[n - 1]);
        proof {
            assert(pinky_down(s@).take(2 * i + 2) =~= pinky_down(s@).take(2 * i as int).push(
                s@[n - 3 - i],
            ).push(s@[n - 1]));
        }
        i += 1;
    }
    assert(pinky_down(s@).take(2 * m) =~= pinky_down(s@));
}

/// The rising order climbs strictly.
pub proof fn law_arp_up_rises(s: Seq<(u8, u8)>)
    requires
        strictly_rising(s),
    ensures
        strictly_rising(arp_order(s, ArpStyle::Up)),
{
}

/// The falling order is the rising order backwards.
pub proof fn law_arp_down_reverses_up(s: Seq<(u8, u8)>)
    ensures
        arp_order(s, ArpStyle::Down) == backwards(arp_order(s, ArpStyle::Up)),
{
}

/// Every note an arpeggio plays is a note of the chord.
pub proof fn law_arp_plays_chord_notes(s: Seq<(u8, u8)>, style: ArpStyle, k: int)
    requires
        0 <= k < arp_order(s, style).len(),
    ensures
        exists|j: int| 0 <= j < s.len() && s[j] == #[trigger] arp_order(s, style)[k],
{
    let r = arp_order(s, style);
    let n = s.len() as int;
    let j: int = match style {
        ArpStyle::Up => k,
        ArpStyle::Down => n - 1 - k,
        ArpStyle::UpDown => if n > 2 && k >= n {
            n - 1 - (k - n + 1)
        } else {
            k
        },
        ArpStyle::DownUp => if n > 2 && k >= n {
            k - n + 1
        } else {
            n - 1 - k
        },
        ArpStyle::Converge => if k % 2 == 0 {
            k / 2
        } else {
            n - 1 - k / 2
        },
        ArpStyle::Diverge => {
            let mid = (n - 1) / 2;
            if n % 2 == 1 {
                if k == 0 {
                    mid
                } else if (k - 1) % 2 == 0 {
                    mid - 1 - (k - 1) / 2
                } else {
                    mid + 1 + (k - 1) / 2
                }
            } else if k % 2 == 0 {
                mid - k / 2
            } else {
                mid + 1 + k / 2
            }
        },
        ArpStyle::PinkyUp => if n > 1 {
            if k % 2 == 0 {
                k / 2
            } else {
                n - 1
            }
        } else {
            k
        },
        ArpStyle::PinkyUpDown => if n > 1 {
            if k < 2 * (n - 1) {
                if k % 2 == 0 {
                    k / 2
                } else {
                    n - 1
                }
            } else if (k - 2 * (n - 1)) % 2 == 0 {
                n - 3 - (k - 2 * (n - 1)) / 2
            } else {
                n - 1
            }
        } else {
            k
        },
    };
    assert(0 <= j < n && s[j] == r[k]);
}

/// Over the distinct pitches of a chord (as `sort_unique_notes` gives
/// them, each pitch of the chord once), the rising order is those notes
/// strictly rising and the falling order the same notes strictly falling.
pub proof fn law_arp_up_down_cover_chord(s: Seq<(u8, u8)>, notes: Seq<(u8, u8)>)
    requires
        is_sorted_unique_of(s, notes),
    ensures
        arp_order(s, ArpStyle::Up) == s,
        arp_order(s, ArpStyle::Down) == backwards(s),
        strictly_rising(arp_order(s, ArpStyle::Up)),
        forall|i: int, j: int| 0 <= i < j < s.len() ==> #[trigger] arp_order(s, ArpStyle::Down)[i].0 > #[trigger] arp_order(s, ArpStyle::Down)[j].0,
{
    let down = arp_order(s, ArpStyle::Down);
    let n = s.len() as int;
    assert forall|i: int, j: int| 0 <= i < j < n implies #[trigger] down[i].0 > #[trigger] down[j].0 by {
        assert(down[i] == s[n - 1 - i]);
        assert(down[j] == s[n - 1 - j]);
        assert(s[n - 1 - j].0 < s[n - 1 - i].0);
    }
}


/// Law: `DownUp` plays every note from the highest down to the lowest and
/// then turns back up through the inner notes, leaving out the two turning
/// points: with `n > 2` notes it plays `2n - 2` of them, the `i`-th
/// (`i < n`) being the `i`-th from the top and the `(n + i)`-th the
/// `(i + 1)`-th from the bottom; with two notes or fewer it only goes down.
pub proof fn law_arp_down_up_turns_back(s: Seq<(u8, u8)>)
    ensures
        s.len() > 2 ==> arp_order(s, ArpStyle::DownUp).len() == 2 * s.len() - 2,
        s.len() <= 2 ==> arp_order(s, ArpStyle::DownUp).len() == s.len(),
        forall|i: int| 0 <= i < s.len() ==> #[trigger] arp_order(s, ArpStyle::DownUp)[i] == s[s.len() - 1 - i],
        s.len() > 2 ==> forall|i: int|
            0 <= i < s.len() - 2 ==> #[trigger] arp_order(s, ArpStyle::DownUp)[s.len() + i] == s[i + 1],
{
}

/// Law: `UpDown` plays every note from the lowest up to the highest and
/// then turns back down through the inner notes, leaving out the two
/// turning points: with `n > 2` notes it plays `2n - 2` of them, the `i`-th
/// (`i < n`) being the `i`-th from the bottom and the `(n + i)`-th the
/// `(i + 1)`-th from the top; with two notes or fewer it only goes up.
pub proof fn law_arp_up_down_turns_back(s: Seq<(u8, u8)>)
    ensures
        s.len() > 2 ==> arp_order(s, ArpStyle::UpDown).len() == 2 * s.len() - 2,
        s.len() <= 2 ==> arp_order(s, ArpStyle::UpDown).len() == s.len(),
        forall|i: int| 0 <= i < s.len() ==> #[trigger] arp_order(s, ArpStyle::UpDown)[i] == s[i],
        s.len() > 2 ==> forall|i: int|
            0 <= i < s.len() - 2 ==> #[trigger] arp_order(s, ArpStyle::UpDown)[s.len() + i] == s[s.len() - 2 - i],
{
}

/// Law: `Converge` closes in from the outside: it plays as many notes as
/// the chord has, the `2i`-th being the `i`-th from the bottom and the
/// `(2i + 1)`-th the `i`-th from the top.
pub proof fn law_arp_converge_closes_in(s: Seq<(u8, u8)>)
    ensures
        arp_order(s, ArpStyle::Converge).len() == s.len(),
        forall|i: int| 0 <= 2 * i < s.len() ==> #[trigger] arp_order(s, ArpStyle::Converge)[2 * i] == s[i],
        forall|i: int| 0 <= 2 * i + 1 < s.len() ==> #[trigger] arp_order(s, ArpStyle::Converge)[2 * i + 1] == s[s.len() - 1 - i],
{
    assert forall|i: int| 0 <= 2 * i < s.len() implies #[trigger] arp_order(s, ArpStyle::Converge)[2 * i] == s[i] by {
        assert((2 * i) % 2 == 0 && (2 * i) / 2 == i);
    }
    assert forall|i: int| 0 <= 2 * i + 1 < s.len() implies #[trigger] arp_order(s, ArpStyle::Converge)[2 * i + 1]
        == s[s.len() - 1 - i] by {
        assert((2 * i + 1) % 2 == 1 && (2 * i + 1) / 2 == i);
    }
}

/// Law: `PinkyUp` (with two notes or more) alternates the notes below the
/// top, rising from the lowest, with the top note: `2(n - 1)` notes, the
/// `2i`-th being the `i`-th from the bottom and every odd one the top note.
pub proof fn law_arp_pinky_up_alternates(s: Seq<(u8, u8)>)
    requires
        s.len() > 1,
    ensures
        arp_order(s, ArpStyle::PinkyUp).len() == 2 * (s.len() - 1),
        forall|i: int| 0 <= i < s.len() - 1 ==> #[trigger] arp_order(s, ArpStyle::PinkyUp)[2 * i] == s[i],
        forall|i: int| 0 <= i < s.len() - 1 ==> #[trigger] arp_order(s, ArpStyle::PinkyUp)[2 * i + 1] == s[s.len() - 1],
{
    assert forall|i: int| 0 <= i < s.len() - 1 implies #[trigger] arp_order(s, ArpStyle::PinkyUp)[2 * i] == s[i] by {
        assert((2 * i) % 2 == 0 && (2 * i) / 2 == i);
    }
    assert forall|i: int| 0 <= i < s.len() - 1 implies #[trigger] arp_order(s, ArpStyle::PinkyUp)[2 * i + 1]
        == s[s.len() - 1] by {
        assert((2 * i + 1) % 2 == 1);
    }
}


/// Law: `Diverge` opens out from the middle: it plays as many notes as the
/// chord has. With an odd count `2h + 1` it starts on the middle note `h`
/// and then takes, for each `i`, note `h - 1 - i` below and then note
/// `h + 1 + i` above; with an even count `2h` it takes, for each `i`, note
/// `h - 1 - i` and then note `h + i`.
pub proof fn law_arp_diverge_opens_out(s: Seq<(u8, u8)>, h: int)
    requires
        s.len() == 2 * h + 1 || (s.len() == 2 * h && h > 0),
    ensures
        arp_order(s, ArpStyle::Diverge).len() == s.len(),
        s.len() == 2 * h + 1 ==> arp_order(s, ArpStyle::Diverge)[0] == s[h],
        s.len() == 2 * h + 1 ==> forall|i: int|
            0 <= i < h ==> #[trigger] arp_order(s, ArpStyle::Diverge)[2 * i + 1] == s[h - 1 - i]
                && arp_order(s, ArpStyle::Diverge)[2 * i + 2] == s[h + 1 + i],
        s.len() == 2 * h ==> forall|i: int|
            0 <= i < h ==> #[trigger] arp_order(s, ArpStyle::Diverge)[2 * i] == s[h - 1 - i]
                && arp_order(s, ArpStyle::Diverge)[2 * i + 1] == s[h + i],
{
    let n = s.len() as int;
    if n == 2 * h + 1 {
        assert((n - 1) / 2 == h);
        assert(n % 2 == 1);
        assert forall|i: int| 0 <= i < h implies #[trigger] arp_order(s, ArpStyle::Diverge)[2 * i + 1] == s[h - 1 - i]
            && arp_order(s, ArpStyle::Diverge)[2 * i + 2] == s[h + 1 + i] by {
            assert((2 * i + 1 - 1) % 2 == 0 && (2 * i + 1 - 1) / 2 == i);
            assert((2 * i + 2 - 1) % 2 == 1 && (2 * i + 2 - 1) / 2 == i);
        }
    } else {
        assert((n - 1) / 2 == h - 1);
        assert(n % 2 == 0);
        assert forall|i: int| 0 <= i < h implies #[trigger] arp_order(s, ArpStyle::Diverge)[2 * i] == s[h - 1 - i]
            && arp_order(s, ArpStyle::Diverge)[2 * i + 1] == s[h + i] by {
            assert((2 * i) % 2 == 0 && (2 * i) / 2 == i);
            assert((2 * i + 1) % 2 == 1 && (2 * i + 1) / 2 == i);
        }
    }
}

/// Law: `PinkyUpDown` (with two notes or more) plays `PinkyUp` and then
/// comes back down: the inner notes from the third highest down to the
/// second lowest, each followed by the top note.
pub proof fn law_arp_pinky_up_down_returns(s: Seq<(u8, u8)>)
    requires
        s.len() > 1,
    ensures
        arp_order(s, ArpStyle::PinkyUpDown).subrange(0, 2 * (s.len() - 1)) == arp_order(s, ArpStyle::PinkyUp),
        s.len() >= 3 ==> arp_order(s, ArpStyle::PinkyUpDown).len() == 2 * (s.len() - 1) + 2 * (s.len() - 3),
        s.len() < 3 ==> arp_order(s, ArpStyle::PinkyUpDown).len() == 2 * (s.len() - 1),
        forall|i: int|
            0 <= i < s.len() - 3 ==> #[trigger] arp_order(s, ArpStyle::PinkyUpDown)[2 * (s.len() - 1) + 2 * i] == s[s.len()
                - 3 - i],
        forall|i: int|
            0 <= i < s.len() - 3 ==> #[trigger] arp_order(s, ArpStyle::PinkyUpDown)[2 * (s.len() - 1) + 2 * i + 1]
                == s[s.len() - 1],
{
    let n = s.len() as int;
    let u = pinky_up(s);
    let d = pinky_down(s);
    assert((u + d).subrange(0, 2 * (n - 1)) =~= u);
    assert forall|i: int| 0 <= i < n - 3 implies #[trigger] arp_order(s, ArpStyle::PinkyUpDown)[2 * (n - 1) + 2 * i]
        == s[n - 3 - i] by {
        assert(d[2 * i] == s[n - 3 - (2 * i) / 2]);
        assert((2 * i) % 2 == 0 && (2 * i) / 2 == i);
    }
    assert forall|i: int| 0 <= i < n - 3 implies #[trigger] arp_order(s, ArpStyle::PinkyUpDown)[2 * (n - 1) + 2 * i + 1]
        == s[n - 1] by {
        assert((2 * i + 1) % 2 == 1);
    }
}

} // verus!

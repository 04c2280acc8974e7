//! The decisions of the playback loop: when a newly loaded program takes
//! over from the playing one, and the MIDI messages the loop sends.
use vstd::prelude::*;
use crate::ast::QuantizeMode;

verus! {

/// The number of cycles a phrase lasts: fixed, or the playing pattern's
/// length capped by `max_auto`.
pub open spec fn quantize_cycles(mode: QuantizeMode, pattern_len: usize, max_auto: usize) -> usize {
    match mode {
        QuantizeMode::Fixed(n) => n,
        QuantizeMode::Auto => if pattern_len < max_auto {
            pattern_len
        } else {
            max_auto
        },
    }
}

/// The phrase length for a staged program: its own quantize setting, else
/// the default.
pub fn phrase_length(staged_mode: Option<QuantizeMode>, default_mode: QuantizeMode, pattern_len: usize, max_auto: usize) -> (r: usize)
    ensures
        r == quantize_cycles(
            match staged_mode {
                Some(m) => m,
                None => default_mode,
            },
            pattern_len,
            max_auto,
        ),
{
    let mode = match staged_mode {
        Some(m) => m,
        None => default_mode,
    };
    match mode {
        QuantizeMode::Fixed(n) => n,
        QuantizeMode::Auto => if pattern_len < max_auto {
            pattern_len
        } else {
            max_auto
        },
    }
}

/// Law: a fixed quantize setting `#QUANTIZE=n` makes every phrase `n`
/// cycles long, whatever the playing pattern's length; `auto` makes it the
/// pattern's length, but never more than `max_auto`. A staged program's own
/// setting takes precedence over the default.
pub proof fn law_phrase_length_follows_quantize(
    staged_mode: Option<QuantizeMode>,
    default_mode: QuantizeMode,
    pattern_len: usize,
    max_auto: usize,
)
    ensures
        forall|n: usize| #[trigger] quantize_cycles(QuantizeMode::Fixed(n), pattern_len, max_auto) == n,
        quantize_cycles(QuantizeMode::Auto, pattern_len, max_auto) <= pattern_len,
        quantize_cycles(QuantizeMode::Auto, pattern_len, max_auto) <= max_auto,
        quantize_cycles(QuantizeMode::Auto, pattern_len, max_auto) == pattern_len
            || quantize_cycles(QuantizeMode::Auto, pattern_len, max_auto) == max_auto,
        staged_mode matches Some(QuantizeMode::Fixed(n)) ==> quantize_cycles(
            match staged_mode {
                Some(m) => m,
                None => default_mode,
            },
            pattern_len,
            max_auto,
        ) == n,
        default_mode matches QuantizeMode::Fixed(n) ==> (staged_mode is None ==> quantize_cycles(
            match staged_mode {
                Some(m) => m,
                None => default_mode,
            },
            pattern_len,
            max_auto,
        ) == n),
{
}

/// What the loop does with a staged program at the start of a cycle.
#[derive(Clone, Copy, Debug, PartialEq, Eq, Structural)]
pub enum StagedAction {
    /// Nothing is staged.
    Nothing,
    /// The staged program replaces the playing one now.
    Swap { hot_reload: bool },
    /// The staged program waits for the end of the phrase.
    Wait { hot_reload: bool, cycles_left: usize, phrase: usize },
}

/// Decides, at the start of cycle `cycle_count`, whether a staged program
/// takes over: it does when the cycle starts a phrase of `phrase` cycles;
/// until then it waits, and the loop fades towards it unless it reloads
/// the playing file.
pub fn staged_action(staged: Option<bool>, phrase: usize, cycle_count: usize) -> (r: StagedAction)
    requires
        staged is Some ==> phrase > 0,
    ensures
        staged is None ==> r == StagedAction::Nothing,
        staged matches Some(hot) ==> (cycle_count % phrase == 0 <==> r == StagedAction::Swap { hot_reload: hot }),
        staged matches Some(hot) ==> (cycle_count % phrase != 0 ==> r == (StagedAction::Wait {
            hot_reload: hot,
            cycles_left: (phrase - cycle_count % phrase) as usize,
            phrase,
        })),
{
    match staged {
        None => StagedAction::Nothing,
        Some(hot) => {
            let pos = cycle_count % phrase;
            if pos == 0 {
                StagedAction::Swap { hot_reload: hot }
            } else {
                StagedAction::Wait { hot_reload: hot, cycles_left: phrase - pos, phrase }
            }
        },
    }
}

/// A staged program never waits more than a phrase, and takes over at the
/// first cycle that starts a phrase.
pub proof fn law_swap_at_phrase_start(phrase: usize, cycle_count: usize)
    requires
        phrase > 0,
    ensures
        cycle_count % phrase != 0 ==> 0 < phrase - cycle_count % phrase < phrase,
        cycle_count % phrase != 0 ==> (cycle_count + (phrase - cycle_count % phrase)) % (phrase as int) == 0,
{
    if cycle_count % phrase != 0 {
        let q = cycle_count / phrase;
        let r = cycle_count % phrase;
        vstd::arithmetic::div_mod::lemma_fundamental_div_mod(cycle_count as int, phrase as int);
        assert(cycle_count + (phrase - r) == (q + 1) * phrase) by (nonlinear_arith)
            requires
                cycle_count == phrase * q + r,
        ;
        vstd::arithmetic::div_mod::lemma_mod_multiples_basic(q + 1, phrase as int);
    }
}

/// A note-on message.
pub fn note_on_message(channel: u8, pitch: u8, velocity: u8) -> (r: Vec<u8>)
    ensures
        r@ == seq![0x90u8 | channel, pitch, velocity],
{
    let r = vec![0x90u8 | channel, pitch, velocity];
    assert(r@ =~= seq![0x90u8 | channel, pitch, velocity]);
    r
}

/// A note-off message.
pub fn note_off_message(channel: u8, pitch: u8) -> (r: Vec<u8>)
    ensures
        r@ == seq![0x80u8 | channel, pitch, 0u8],
{
    let r = vec![0x80u8 | channel, pitch, 0u8];
    assert(r@ =~= seq![0x80u8 | channel, pitch, 0u8]);
    r
}

/// A control-change message.
pub fn control_change_message(channel: u8, controller: u8, value: u8) -> (r: Vec<u8>)
    ensures
        r@ == seq![0xB0u8 | channel, controller, value],
{
    let r = vec![0xB0u8 | channel, controller, value];
    assert(r@ =~= seq![0xB0u8 | channel, controller, value]);
    r
}

/// On the sixteen channels, the status byte names the channel.
pub proof fn law_status_carries_channel(channel: u8)
    requires
        channel < 16,
    ensures
        0x90u8 | channel == 0x90 + channel,
        0x80u8 | channel == 0x80 + channel,
        0xB0u8 | channel == 0xB0 + channel,
{
    assert(0x90u8 | channel == 0x90 + channel) by (bit_vector)
        requires
            channel < 16,
    ;
    assert(0x80u8 | channel == 0x80 + channel) by (bit_vector)
        requires
            channel < 16,
    ;
    assert(0xB0u8 | channel == 0xB0 + channel) by (bit_vector)
        requires
            channel < 16,
    ;
}

// ---------------------------------------------------------------------
// Sounding notes
// ---------------------------------------------------------------------

/// The sounding notes other than those on `channel` and `pitch`, in order.
pub open spec fn others<T>(s: Seq<(u8, u8, T)>, channel: u8, pitch: u8) -> Seq<(u8, u8, T)>
    decreases s.len(),
{
    if s.len() == 0 {
        s
    } else if s.last().0 == channel && s.last().1 == pitch {
        others(s.drop_last(), channel, pitch)
    } else {
        others(s.drop_last(), channel, pitch).push(s.last())
    }
}

/// The sounding notes on `channel` and `pitch`, in order.
pub open spec fn same_key<T>(s: Seq<(u8, u8, T)>, channel: u8, pitch: u8) -> Seq<(u8, u8, T)>
    decreases s.len(),
{
    if s.len() == 0 {
        s
    } else if s.last().0 == channel && s.last().1 == pitch {
        same_key(s.drop_last(), channel, pitch).push(s.last())
    } else {
        same_key(s.drop_last(), channel, pitch)
    }
}

/// No channel and pitch sounds twice.
pub open spec fn one_per_key<T>(s: Seq<(u8, u8, T)>) -> bool {
    forall|i: int, j: int| 0 <= i < j < s.len() ==> !(#[trigger] s[i].0 == #[trigger] s[j].0 && s[i].1 == s[j].1)
}

/// Starts a note on `channel` and `pitch` that ends at `off`: a note already
/// sounding on that channel and pitch is stopped first (and returned, so
/// that its note-off is sent), then the new one joins the sounding notes.
pub fn start_note<T: Copy>(active: &mut Vec<(u8, u8, T)>, channel: u8, pitch: u8, off: T) -> (stopped: Vec<(u8, u8, T)>)
    ensures
        final(active)@ == others(old(active)@, channel, pitch).push((channel, pitch, off)),
        stopped@ == same_key(old(active)@, channel, pitch),
{
    let ghost start = active@;
    let mut kept: Vec<(u8, u8, T)> = Vec::new();
    let mut stopped: Vec<(u8, u8, T)> = Vec::new();
    let mut i: usize = 0;
    while i < active.len()
        invariant
            0 <= i <= active@.len(),
            active@ == start,
            kept@ == others(start.take(i as int), channel, pitch),
            stopped@ == same_key(start.take(i as int), channel, pitch),
        decreases active.len() - i,
    {
        let e = active[i];
        proof {
            assert(start.take(i + 1).drop_last() =~= start.take(i as int));
            assert(start.take(i + 1).last() == e);
        }
        if e.0 == channel && e.1 == pitch {
            stopped.push(e);
        } else {
            kept.push(e);
        }
        i += 1;
    }
    proof {
        assert(start.take(i as int) =~= start);
    }
    kept.push((channel, pitch, off));
    *active = kept;
    stopped
}

proof fn lemma_others_sub<T>(s: Seq<(u8, u8, T)>, channel: u8, pitch: u8)
    ensures
        forall|k: int| 0 <= k < others(s, channel, pitch).len() ==> !((#[trigger] others(s, channel, pitch)[k]).0 == channel && others(s, channel, pitch)[k].1 == pitch),
        one_per_key(s) ==> one_per_key(others(s, channel, pitch)),
        forall|k: int| 0 <= k < others(s, channel, pitch).len() ==> s.contains(#[trigger] others(s, channel, pitch)[k]),
    decreases s.len(),
{
    if s.len() > 0 {
        let init = s.drop_last();
        lemma_others_sub(init, channel, pitch);
        let o = others(init, channel, pitch);
        if !(s.last().0 == channel && s.last().1 == pitch) {
            let r = o.push(s.last());
            assert forall|k: int| 0 <= k < r.len() implies s.contains(#[trigger] r[k]) by {
                if k < o.len() {
                    assert(init.contains(o[k]));
                    let q = choose|q: int| 0 <= q < init.len() && init[q] == o[k];
                    assert(s[q] == init[q]);
                } else {
                    assert(s[s.len() - 1] == s.last());
                }
            }
            if one_per_key(s) {
                assert forall|a: int, b: int| 0 <= a < b < r.len() implies !(#[trigger] r[a].0 == #[trigger] r[b].0 && r[a].1 == r[b].1) by {
                    if b == r.len() - 1 {
                        assert(init.contains(o[a]));
                        let q = choose|q: int| 0 <= q < init.len() && init[q] == o[a];
                        assert(s[q] == init[q]);
                        assert(s[s.len() - 1] == s.last());
                    }
                }
            }
        } else {
            assert forall|k: int| 0 <= k < o.len() implies s.contains(#[trigger] o[k]) by {
                assert(init.contains(o[k]));
                let q = choose|q: int| 0 <= q < init.len() && init[q] == o[k];
                assert(s[q] == init[q]);
            }
        }
    }
}

/// Starting a note keeps at most one sounding note per channel and pitch.
pub proof fn law_start_note_one_per_key<T>(active: Seq<(u8, u8, T)>, channel: u8, pitch: u8, off: T)
    requires
        one_per_key(active),
    ensures
        one_per_key(others(active, channel, pitch).push((channel, pitch, off))),
{
    lemma_others_sub(active, channel, pitch);
}

} // verus!

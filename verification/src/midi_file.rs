//! The notes of a standard MIDI file, read with `midly`: each note from
//! its start to its end, in ticks, with its key and velocity.
use vstd::prelude::*;
use midly::{MidiMessage, Smf, Timing, TrackEventKind};

verus! {

#[verifier::external_type_specification]
#[verifier::external_body]
pub struct ExSmf<'a>(Smf<'a>);

#[verifier::external_type_specification]
#[verifier::external_body]
pub struct ExMidlyError(midly::Error);

/// What an event of a track means for the notes: a key pressed with a
/// velocity, a key released, or something else.
#[derive(Clone, Copy, Debug, PartialEq, Eq, Structural)]
pub enum NoteEvent {
    On(u8, u8),
    Off(u8),
    Other,
}

/// An event and the ticks since the previous one.
#[derive(Clone, Copy, Debug, PartialEq, Eq, Structural)]
pub struct TimedEvent {
    pub delta: u32,
    pub kind: NoteEvent,
}

/// The events of each track of a parsed file.
pub uninterp spec fn smf_tracks(smf: Smf) -> Seq<Seq<TimedEvent>>;

/// The ticks per beat of a parsed file; `None` for timecode timing.
pub uninterp spec fn smf_ticks_per_beat(smf: Smf) -> Option<u16>;

/// What bytes read as, as a MIDI file: its ticks per beat and the events
/// of its tracks, or `None` when they are not one.
pub uninterp spec fn midi_file_content(data: Seq<u8>) -> Option<(Option<u16>, Seq<Seq<TimedEvent>>)>;

/// Keys and velocities of MIDI messages are 7-bit values.
pub open spec fn event_ok(e: TimedEvent) -> bool {
    match e.kind {
        NoteEvent::On(k, v) => k < 128 && v < 128,
        NoteEvent::Off(k) => k < 128,
        NoteEvent::Other => true,
    }
}

/// Parses a standard MIDI file (`Smf::parse`).
#[verifier::external_body]
fn parse_smf<'a>(data: &'a [u8]) -> (r: Result<Smf<'a>, midly::Error>)
    ensures
        match r {
            Ok(smf) => midi_file_content(data@) == Some((smf_ticks_per_beat(smf), smf_tracks(smf))),
            Err(_) => midi_file_content(data@) is None,
        },
{
    Smf::parse(data)
}

/// The ticks per beat of a file's header (`Timing::Metrical`), or `None`
/// for timecode timing.
#[verifier::external_body]
fn ticks_per_beat(smf: &Smf) -> (r: Option<u16>)
    ensures
        r == smf_ticks_per_beat(*smf),
{
    match smf.header.timing {
        Timing::Metrical(t) => Some(t.as_int()),
        Timing::Timecode(..) => None,
    }
}

/// The number of tracks (`smf.tracks.len()`).
#[verifier::external_body]
fn track_count(smf: &Smf) -> (r: usize)
    ensures
        r == smf_tracks(*smf).len(),
{
    smf.tracks.len()
}

/// The number of events of track `i`.
#[verifier::external_body]
fn event_count(smf: &Smf, i: usize) -> (r: usize)
    requires
        i < smf_tracks(*smf).len(),
    ensures
        r == smf_tracks(*smf)[i as int].len(),
{
    smf.tracks[i].len()
}

/// Event `j` of track `i`: its delta (`u28::as_int`) and, for note-on and
/// note-off messages, its key and velocity (`u7::as_int`, below 128).
#[verifier::external_body]
fn event_at(smf: &Smf, i: usize, j: usize) -> (r: TimedEvent)
    requires
        i < smf_tracks(*smf).len(),
        j < smf_tracks(*smf)[i as int].len(),
    ensures
        r == smf_tracks(*smf)[i as int][j as int],
        event_ok(r),
{
    let ev = &smf.tracks[i][j];
    let kind = match ev.kind {
        TrackEventKind::Midi { message: MidiMessage::NoteOn { key, vel }, .. } => NoteEvent::On(key.as_int(), vel.as_int()),
        TrackEventKind::Midi { message: MidiMessage::NoteOff { key, .. }, .. } => NoteEvent::Off(key.as_int()),
        _ => NoteEvent::Other,
    };
    TimedEvent { delta: ev.delta.as_int(), kind }
}

/// A note: when it starts and ends, in ticks from the start of its track,
/// its key and the velocity it was struck with.
#[derive(Clone, Copy, Debug, PartialEq, Eq, Structural)]
pub struct NoteSpan {
    pub start_tick: u64,
    pub end_tick: u64,
    pub key: u8,
    pub velocity: u8,
}

/// Ticks add up, held at the largest `u64`.
pub open spec fn tick_add(a: u64, d: u32) -> u64 {
    if a + d > u64::MAX {
        u64::MAX
    } else {
        (a + d) as u64
    }
}

/// The note ended at `t` on key `k`, if one is sounding.
pub open spec fn release(active: Seq<Option<(u64, u8)>>, k: u8, t: u64) -> Seq<NoteSpan> {
    match active[k as int] {
        Some((st, v)) => seq![NoteSpan { start_tick: st, end_tick: t, key: k, velocity: v }],
        None => Seq::empty(),
    }
}

/// The notes of a track from event `i` on, with the tick `abs` reached and
/// the sounding keys in `active` (the start and velocity of each): a
/// note-on with velocity starts (or restarts) a key; a note-off, or a
/// note-on with velocity 0, ends it.
pub open spec fn run_track(evs: Seq<TimedEvent>, i: nat, abs: u64, active: Seq<Option<(u64, u8)>>) -> Seq<NoteSpan>
    decreases evs.len() - i,
{
    if i >= evs.len() {
        Seq::empty()
    } else {
        let e = evs[i as int];
        let t = tick_add(abs, e.delta);
        match e.kind {
            NoteEvent::On(k, v) => if v > 0 {
                run_track(evs, i + 1, t, active.update(k as int, Some((t, v))))
            } else {
                release(active, k, t) + run_track(evs, i + 1, t, active.update(k as int, None))
            },
            NoteEvent::Off(k) => release(active, k, t) + run_track(evs, i + 1, t, active.update(k as int, None)),
            NoteEvent::Other => run_track(evs, i + 1, t, active),
        }
    }
}

/// No key sounding.
pub open spec fn silent() -> Seq<Option<(u64, u8)>> {
    Seq::new(128, |k: int| None)
}

/// The notes of all tracks, track after track.
pub open spec fn file_notes(tracks: Seq<Seq<TimedEvent>>) -> Seq<NoteSpan>
    decreases tracks.len(),
{
    if tracks.len() == 0 {
        Seq::empty()
    } else {
        file_notes(tracks.drop_last()) + run_track(tracks.last(), 0, 0, silent())
    }
}

fn track_notes(smf: &Smf, ti: usize, out: &mut Vec<NoteSpan>)
    requires
        ti < smf_tracks(*smf).len(),
    ensures
        final(out)@ == old(out)@ + run_track(smf_tracks(*smf)[ti as int], 0, 0, silent()),
{
    let ghost evs = smf_tracks(*smf)[ti as int];
    let ghost start = old(out)@;
    let n = event_count(smf, ti);
    let mut active: Vec<Option<(u64, u8)>> = Vec::new();
    let mut k: usize = 0;
    while k < 128
        invariant
            0 <= k <= 128,
            active@ == Seq::new(k as nat, |q: int| None::<(u64, u8)>),
        decreases 128 - k,
    {
        active.push(None);
        proof {
            assert(active@ =~= Seq::new((k + 1) as nat, |q: int| None::<(u64, u8)>));
        }
        k += 1;
    }
    assert(active@ =~= silent());
    let mut abs: u64 = 0;
    let mut j: usize = 0;
    assert(out@ =~= start + Seq::<NoteSpan>::empty());
    while j < n
        invariant
            0 <= j <= n,
            n == evs.len(),
            evs == smf_tracks(*smf)[ti as int],
            ti < smf_tracks(*smf).len(),
            active@.len() == 128,
            start + run_track(evs, 0, 0, silent()) == out@ + run_track(evs, j as nat, abs, active@),
        decreases n - j,
    {
        let e = event_at(smf, ti, j);
        let t: u64 = if abs > u64::MAX - e.delta as u64 {
            u64::MAX
        } else {
            abs + e.delta as u64
        };
        let ghost before_out = out@;
        let ghost before_active = active@;
        match e.kind {
            NoteEvent::On(key, vel) => {
                if vel > 0 {
                    active.set(key as usize, Some((t, vel)));
                } else {
                    if let Some((st, ov)) = active[key as usize] {
                        out.push(NoteSpan { start_tick: st, end_tick: t, key, velocity: ov });
                    }
                    active.set(key as usize, None);
                }
            },
            NoteEvent::Off(key) => {
                if let Some((st, ov)) = active[key as usize] {
                    out.push(NoteSpan { start_tick: st, end_tick: t, key, velocity: ov });
                }
                active.set(key as usize, None);
            },
            NoteEvent::Other => {},
        }
        proof {
            let rest = run_track(evs, (j + 1) as nat, t, active@);
            assert(run_track(evs, j as nat, abs, before_active) == (match e.kind {
                NoteEvent::On(key, vel) => if vel > 0 {
                    rest
                } else {
                    release(before_active, key, t) + rest
                },
                NoteEvent::Off(key) => release(before_active, key, t) + rest,
                NoteEvent::Other => rest,
            }));
            match e.kind {
                NoteEvent::On(key, vel) => {
                    if vel == 0 {
                        assert(before_out + (release(before_active, key, t) + rest) =~= out@ + rest);
                    }
                },
                NoteEvent::Off(key) => {
                    assert(before_out + (release(before_active, key, t) + rest) =~= out@ + rest);
                },
                NoteEvent::Other => {},
            }
        }
        abs = t;
        j += 1;
    }
    assert(out@ + Seq::<NoteSpan>::empty() =~= out@);
}

/// The notes of a parsed file, track after track, each in the order in
/// which it ends.
pub fn collect_notes(smf: &Smf) -> (r: Vec<NoteSpan>)
    ensures
        r@ == file_notes(smf_tracks(*smf)),
{
    let ghost tracks = smf_tracks(*smf);
    let n = track_count(smf);
    let mut out: Vec<NoteSpan> = Vec::new();
    let mut i: usize = 0;
    assert(tracks.take(0) =~= Seq::<Seq<TimedEvent>>::empty());
    while i < n
        invariant
            0 <= i <= n,
            n == tracks.len(),
            tracks == smf_tracks(*smf),
            out@ == file_notes(tracks.take(i as int)),
        decreases n - i,
    {
        proof {
            assert(tracks.take(i + 1).drop_last() =~= tracks.take(i as int));
            assert(tracks.take(i + 1).last() == tracks[i as int]);
        }
        track_notes(smf, i, &mut out);
        i += 1;
    }
    assert(tracks.take(n as int) =~= tracks);
    out
}

/// Why bytes could not be read as notes.
#[derive(Clone, Copy, Debug, PartialEq, Eq, Structural)]
pub enum MidiReadError {
    /// The bytes are not a standard MIDI file.
    Malformed,
    /// The file counts time in timecode, not in ticks per beat.
    Timecode,
}

/// What reading bytes as notes gives: the ticks per beat and the notes of
/// all tracks, or why it cannot.
pub open spec fn read_result(content: Option<(Option<u16>, Seq<Seq<TimedEvent>>)>) -> Result<(u16, Seq<NoteSpan>), MidiReadError> {
    match content {
        None => Err(MidiReadError::Malformed),
        Some((None, _)) => Err(MidiReadError::Timecode),
        Some((Some(t), tracks)) => Ok((t, file_notes(tracks))),
    }
}

/// Reads the bytes of a MIDI file: its ticks per beat and its notes, track
/// after track; an error for bytes that are no MIDI file and for a file
/// timed in timecode.
pub fn read_midi_notes(data: &[u8]) -> (r: Result<(u16, Vec<NoteSpan>), MidiReadError>)
    ensures
        match (r, read_result(midi_file_content(data@))) {
            (Ok((t, ns)), Ok((t2, ns2))) => t == t2 && ns@ == ns2,
            (Err(e), Err(e2)) => e == e2,
            _ => false,
        },
{
    match parse_smf(data) {
        Err(_) => Err(MidiReadError::Malformed),
        Ok(smf) => {
            match ticks_per_beat(&smf) {
                None => Err(MidiReadError::Timecode),
                Some(t) => {
                    let notes = collect_notes(&smf);
                    Ok((t, notes))
                },
            }
        },
    }
}

} // verus!

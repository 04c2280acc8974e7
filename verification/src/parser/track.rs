//! Track definitions: `!T3(span: 2, octave: -1): exprs`.
use vstd::prelude::*;
use crate::ast::{Modifier, Node, ScaleDef, SeedDef, SeedInterval, SNode, SScale, STrack, Track};
use super::directives::{lemma_scale_def, scale_def, spec_scale_def};
use super::expr::{expr_list, spec_expr_list};
use super::primitives::{
    int_i32, int_u64, int_u8, int_usize, just, kw, lemma_int_i32_bounds, lemma_int_u64_bounds,
    lemma_int_u8_bounds, lemma_int_usize_bounds, lemma_kw_bounds, lemma_pad_char_bounds,
    lemma_padding_bounds, pad_char, padding, spec_int_i32, spec_int_u64, spec_int_u8,
    spec_int_usize, spec_just, spec_kw, spec_pad_char, spec_padding,
};

verus! {

/// A setting written in a track header.
#[derive(Debug)]
pub enum TrackModifier {
    Span(usize),
    Scale(ScaleDef),
    Seed(SeedDef),
    Octave(i32),
    ProgramChange(u8),
}

/// The view of a track setting.
pub enum STrackMod {
    Span(usize),
    Scale(SScale),
    Seed(SeedDef),
    Octave(i32),
    ProgramChange(u8),
}

impl View for TrackModifier {
    type V = STrackMod;

    open spec fn view(&self) -> STrackMod {
        match self {
            TrackModifier::Span(n) => STrackMod::Span(*n),
            TrackModifier::Scale(sc) => STrackMod::Scale(sc@),
            TrackModifier::Seed(sd) => STrackMod::Seed(*sd),
            TrackModifier::Octave(o) => STrackMod::Octave(*o),
            TrackModifier::ProgramChange(p) => STrackMod::ProgramChange(*p),
        }
    }
}

pub open spec fn w_span() -> Seq<char> { seq!['s', 'p', 'a', 'n'] }
pub open spec fn w_scale() -> Seq<char> { seq!['s', 'c', 'a', 'l', 'e'] }
pub open spec fn w_pc() -> Seq<char> { seq!['p', 'c'] }
pub open spec fn w_octave() -> Seq<char> { seq!['o', 'c', 't', 'a', 'v', 'e'] }
pub open spec fn w_seed() -> Seq<char> { seq!['s', 'e', 'e', 'd'] }
pub open spec fn w_m_every() -> Seq<char> { seq!['m', '_', 'e', 'v', 'e', 'r', 'y'] }
pub open spec fn w_t_every() -> Seq<char> { seq!['t', '_', 'e', 'v', 'e', 'r', 'y'] }
pub open spec fn w_every() -> Seq<char> { seq!['e', 'v', 'e', 'r', 'y'] }

/// `word:` at `pos`: the position after the colon.
pub open spec fn spec_setting_head(s: Seq<char>, pos: usize, w: Seq<char>) -> Option<usize> {
    match spec_kw(s, pos, w) {
        Some(p1) => spec_pad_char(s, p1, ':'),
        None => None,
    }
}

pub proof fn lemma_setting_head(s: Seq<char>, pos: usize, w: Seq<char>)
    requires
        pos <= s.len() <= usize::MAX,
    ensures
        spec_setting_head(s, pos, w) matches Some(e) ==> pos < e <= s.len(),
{
    lemma_kw_bounds(s, pos, w);
    if let Some(p1) = spec_kw(s, pos, w) {
        lemma_pad_char_bounds(s, p1, ':');
    }
}

/// An optional seed interval: `m_every n`, `t_every n` or `every n`.
pub open spec fn spec_seed_interval(s: Seq<char>, pos: usize) -> Option<(SeedInterval, usize)> {
    let kind: Option<(u8, usize)> = if spec_kw(s, pos, w_m_every()) is Some {
        Some((0u8, spec_kw(s, pos, w_m_every()).unwrap()))
    } else if spec_kw(s, pos, w_t_every()) is Some {
        Some((1u8, spec_kw(s, pos, w_t_every()).unwrap()))
    } else if spec_kw(s, pos, w_every()) is Some {
        Some((2u8, spec_kw(s, pos, w_every()).unwrap()))
    } else {
        None
    };
    match kind {
        Some((k, p1)) => match spec_int_usize(s, p1) {
            Some((v, p2)) => Some((
                if k == 0 {
                    SeedInterval::Macro(v)
                } else if k == 1 {
                    SeedInterval::Track(v)
                } else {
                    SeedInterval::Micro(v)
                },
                p2,
            )),
            None => None,
        },
        None => None,
    }
}

/// One track setting; the alternatives are tried in this order.
pub open spec fn spec_track_modifier(s: Seq<char>, pos: usize) -> Option<(STrackMod, usize)> {
    if spec_setting_head(s, pos, w_span()) is Some && spec_int_usize(
        s,
        spec_setting_head(s, pos, w_span()).unwrap(),
    ) is Some {
        let (n, e) = spec_int_usize(s, spec_setting_head(s, pos, w_span()).unwrap()).unwrap();
        Some((STrackMod::Span(n), e))
    } else if spec_setting_head(s, pos, w_scale()) is Some && spec_scale_def(
        s,
        spec_setting_head(s, pos, w_scale()).unwrap(),
    ) is Some {
        let (sc, e) = spec_scale_def(s, spec_setting_head(s, pos, w_scale()).unwrap()).unwrap();
        Some((STrackMod::Scale(sc), e))
    } else if spec_setting_head(s, pos, w_pc()) is Some && spec_int_u8(
        s,
        spec_setting_head(s, pos, w_pc()).unwrap(),
    ) is Some {
        let (v, e) = spec_int_u8(s, spec_setting_head(s, pos, w_pc()).unwrap()).unwrap();
        Some((STrackMod::ProgramChange(if v == 0 { 0u8 } else { (v - 1) as u8 }), e))
    } else if spec_setting_head(s, pos, w_octave()) is Some && spec_int_i32(
        s,
        spec_setting_head(s, pos, w_octave()).unwrap(),
    ) is Some {
        let (o, e) = spec_int_i32(s, spec_setting_head(s, pos, w_octave()).unwrap()).unwrap();
        Some((STrackMod::Octave(o), e))
    } else if spec_setting_head(s, pos, w_seed()) is Some && spec_int_u64(
        s,
        spec_setting_head(s, pos, w_seed()).unwrap(),
    ) is Some {
        let (base, e) = spec_int_u64(s, spec_setting_head(s, pos, w_seed()).unwrap()).unwrap();
        match spec_seed_interval(s, e) {
            Some((iv, e2)) => Some((STrackMod::Seed(SeedDef { base, interval: Some(iv) }), e2)),
            None => Some((STrackMod::Seed(SeedDef { base, interval: None }), e)),
        }
    } else {
        None
    }
}


pub proof fn lemma_seed_interval(s: Seq<char>, pos: usize)
    requires
        pos <= s.len() <= usize::MAX,
    ensures
        spec_seed_interval(s, pos) matches Some((_, e)) ==> pos < e <= s.len(),
{
    lemma_kw_bounds(s, pos, w_m_every());
    lemma_kw_bounds(s, pos, w_t_every());
    lemma_kw_bounds(s, pos, w_every());
    if let Some(p1) = spec_kw(s, pos, w_m_every()) {
        lemma_int_usize_bounds(s, p1);
    }
    if let Some(p1) = spec_kw(s, pos, w_t_every()) {
        lemma_int_usize_bounds(s, p1);
    }
    if let Some(p1) = spec_kw(s, pos, w_every()) {
        lemma_int_usize_bounds(s, p1);
    }
}

pub proof fn lemma_track_modifier(s: Seq<char>, pos: usize)
    requires
        pos <= s.len() <= usize::MAX,
    ensures
        spec_track_modifier(s, pos) matches Some((_, e)) ==> pos < e <= s.len(),
{
    lemma_setting_head(s, pos, w_span());
    lemma_setting_head(s, pos, w_scale());
    lemma_setting_head(s, pos, w_pc());
    lemma_setting_head(s, pos, w_octave());
    lemma_setting_head(s, pos, w_seed());
    if let Some(p) = spec_setting_head(s, pos, w_span()) {
        lemma_int_usize_bounds(s, p);
    }
    if let Some(p) = spec_setting_head(s, pos, w_scale()) {
        lemma_scale_def(s, p);
    }
    if let Some(p) = spec_setting_head(s, pos, w_pc()) {
        lemma_int_u8_bounds(s, p);
    }
    if let Some(p) = spec_setting_head(s, pos, w_octave()) {
        lemma_int_i32_bounds(s, p);
    }
    if let Some(p) = spec_setting_head(s, pos, w_seed()) {
        lemma_int_u64_bounds(s, p);
        if let Some((_, e)) = spec_int_u64(s, p) {
            lemma_seed_interval(s, e);
        }
    }
}

/// A setting with padding round it.
pub open spec fn spec_padded_mod(s: Seq<char>, pos: usize) -> Option<(STrackMod, usize)> {
    match spec_track_modifier(s, spec_padding(s, pos)) {
        Some((m, e)) => Some((m, spec_padding(s, e))),
        None => None,
    }
}

pub proof fn lemma_padded_mod(s: Seq<char>, pos: usize)
    requires
        pos <= s.len() <= usize::MAX,
    ensures
        spec_padded_mod(s, pos) matches Some((_, e)) ==> pos < e <= s.len(),
{
    lemma_padding_bounds(s, pos);
    lemma_track_modifier(s, spec_padding(s, pos));
    if let Some((_, e)) = spec_track_modifier(s, spec_padding(s, pos)) {
        lemma_padding_bounds(s, e);
    }
}

/// Settings after the first: `, setting` repeatedly.
pub open spec fn spec_mods_rest(s: Seq<char>, pos: usize) -> (Seq<STrackMod>, usize)
    decreases s.len() - pos
    when pos <= s.len() && s.len() <= usize::MAX
{
    match spec_pad_char(s, pos, ',') {
        Some(p1) => {
            proof {
                lemma_pad_char_bounds(s, pos, ',');
            }
            match spec_padded_mod(s, p1) {
                Some((m, p2)) => {
                    proof {
                        lemma_padded_mod(s, p1);
                    }
                    let (rest, p3) = spec_mods_rest(s, p2);
                    (seq![m] + rest, p3)
                },
                None => (Seq::empty(), pos),
            }
        },
        None => (Seq::empty(), pos),
    }
}

/// Settings separated by commas (possibly none).
pub open spec fn spec_mods(s: Seq<char>, pos: usize) -> (Seq<STrackMod>, usize) {
    match spec_padded_mod(s, pos) {
        Some((m, p1)) => {
            let (rest, p2) = spec_mods_rest(s, p1);
            (seq![m] + rest, p2)
        },
        None => (Seq::empty(), pos),
    }
}

/// `( settings )`.
pub open spec fn spec_mod_block(s: Seq<char>, pos: usize) -> Option<(Seq<STrackMod>, usize)> {
    match spec_pad_char(s, pos, '(') {
        Some(p1) => {
            let (ms, p2) = spec_mods(s, p1);
            match spec_pad_char(s, p2, ')') {
                Some(p3) => Some((ms, p3)),
                None => None,
            }
        },
        None => None,
    }
}

/// `[!]T<n>[(settings)]:` with padding round it: whether the track is muted,
/// its number as written, its settings and the position after the header.
pub open spec fn spec_track_header(s: Seq<char>, pos: usize) -> Option<(bool, u8, Seq<STrackMod>, usize)> {
    let p0 = spec_padding(s, pos);
    let (muted, p1) = match spec_just(s, p0, '!') {
        Some(q) => (true, q),
        None => (false, p0),
    };
    match spec_just(s, p1, 'T') {
        Some(p2) => match spec_int_u8(s, p2) {
            Some((ch, p3)) => {
                let (ms, p4) = match spec_mod_block(s, p3) {
                    Some(x) => x,
                    None => (Seq::empty(), p3),
                };
                match spec_pad_char(s, p4, ':') {
                    Some(p5) => Some((muted, ch, ms, spec_padding(s, p5))),
                    None => None,
                }
            },
            None => None,
        },
        None => None,
    }
}

/// The settings of a track once its header has been read.
pub struct TrackSettings {
    pub span: Option<usize>,
    pub scale: Option<SScale>,
    pub seed: Option<SeedDef>,
    pub octave: i32,
    pub pc: Option<u8>,
}

pub open spec fn no_settings() -> TrackSettings {
    TrackSettings { span: None, scale: None, seed: None, octave: 0, pc: None }
}

/// A setting replaces the one of its kind, except octaves, which add up;
/// `None` when the sum of octaves leaves the range of `i32`.
pub open spec fn apply_setting(st: TrackSettings, m: STrackMod) -> Option<TrackSettings> {
    match m {
        STrackMod::Span(n) => Some(TrackSettings { span: Some(n), ..st }),
        STrackMod::Scale(sc) => Some(TrackSettings { scale: Some(sc), ..st }),
        STrackMod::Seed(sd) => Some(TrackSettings { seed: Some(sd), ..st }),
        STrackMod::Octave(o) => if i32::MIN <= st.octave + o <= i32::MAX {
            Some(TrackSettings { octave: (st.octave + o) as i32, ..st })
        } else {
            None
        },
        STrackMod::ProgramChange(p) => Some(TrackSettings { pc: Some(p), ..st }),
    }
}

/// The settings in order, applied one after another.
pub open spec fn settings_of(ms: Seq<STrackMod>) -> Option<TrackSettings>
    decreases ms.len(),
{
    if ms.len() == 0 {
        Some(no_settings())
    } else {
        match settings_of(ms.drop_last()) {
            Some(st) => apply_setting(st, ms.last()),
            None => None,
        }
    }
}

/// Track numbers count from 1; channels from 0, at most 15.
pub open spec fn track_channel(n: u8) -> u8 {
    if n == 0 {
        0
    } else if n - 1 > 15 {
        15
    } else {
        (n - 1) as u8
    }
}

/// The pattern of a track: its expressions as a sequence, under a span when
/// one is set.
pub open spec fn track_root(items: Seq<SNode>, span: Option<usize>) -> SNode {
    match span {
        Some(n) => SNode::Modified(Box::new(SNode::Sequence(items)), seq![Modifier::Span(n)]),
        None => SNode::Sequence(items),
    }
}

/// A whole track definition with padding round it.
pub open spec fn spec_track(s: Seq<char>, pos: usize) -> Option<(STrack, usize)> {
    match spec_track_header(s, pos) {
        Some((muted, n, ms, p)) => match settings_of(ms) {
            Some(st) => {
                let (items, p2) = spec_expr_list(s, p);
                Some((
                    STrack {
                        channel: track_channel(n),
                        is_muted: muted,
                        scale: st.scale,
                        seed: st.seed,
                        octave_offset: st.octave,
                        program_change: st.pc,
                        root_node: track_root(items, st.span),
                    },
                    spec_padding(s, p2),
                ))
            },
            None => None,
        },
        None => None,
    }
}

fn setting_head(s: &Vec<char>, pos: usize, w: &[char]) -> (r: Option<usize>)
    requires
        pos <= s@.len() <= usize::MAX,
    ensures
        r == spec_setting_head(s@, pos, w@),
        r matches Some(e) ==> pos < e <= s@.len(),
{
    proof {
        lemma_setting_head(s@, pos, w@);
    }
    let p1 = kw(s, pos, w)?;
    pad_char(s, p1, ':')
}

fn seed_interval(s: &Vec<char>, pos: usize) -> (r: Option<(SeedInterval, usize)>)
    requires
        pos <= s@.len() <= usize::MAX,
    ensures
        r == spec_seed_interval(s@, pos),
{
    let wm = ['m', '_', 'e', 'v', 'e', 'r', 'y'];
    let wt = ['t', '_', 'e', 'v', 'e', 'r', 'y'];
    let we = ['e', 'v', 'e', 'r', 'y'];
    assert(wm@ =~= w_m_every());
    assert(wt@ =~= w_t_every());
    assert(we@ =~= w_every());
    let (k, p1): (u8, usize) = if let Some(p) = kw(s, pos, &wm) {
        (0, p)
    } else if let Some(p) = kw(s, pos, &wt) {
        (1, p)
    } else if let Some(p) = kw(s, pos, &we) {
        (2, p)
    } else {
        return None;
    };
    proof {
        lemma_kw_bounds(s@, pos, wm@);
        lemma_kw_bounds(s@, pos, wt@);
        lemma_kw_bounds(s@, pos, we@);
    }
    let (v, p2) = int_usize(s, p1)?;
    let iv = if k == 0 {
        SeedInterval::Macro(v)
    } else if k == 1 {
        SeedInterval::Track(v)
    } else {
        SeedInterval::Micro(v)
    };
    Some((iv, p2))
}

/// Parses one track setting.
pub fn track_modifier(s: &Vec<char>, pos: usize) -> (r: Option<(TrackModifier, usize)>)
    requires
        pos <= s@.len() <= usize::MAX,
    ensures
        crate::ast::agrees(r, spec_track_modifier(s@, pos)),
        r matches Some((_, e)) ==> pos < e <= s@.len(),
{
    proof {
        lemma_track_modifier(s@, pos);
    }
    let wspan = ['s', 'p', 'a', 'n'];
    let wscale = ['s', 'c', 'a', 'l', 'e'];
    let wpc = ['p', 'c'];
    let woct = ['o', 'c', 't', 'a', 'v', 'e'];
    let wseed = ['s', 'e', 'e', 'd'];
    assert(wspan@ =~= w_span());
    assert(wscale@ =~= w_scale());
    assert(wpc@ =~= w_pc());
    assert(woct@ =~= w_octave());
    assert(wseed@ =~= w_seed());
    if let Some(p) = setting_head(s, pos, &wspan) {
        if let Some((n, e)) = int_usize(s, p) {
            return Some((TrackModifier::Span(n), e));
        }
    }
    if let Some(p) = setting_head(s, pos, &wscale) {
        if let Some((sc, e)) = scale_def(s, p) {
            return Some((TrackModifier::Scale(sc), e));
        }
    }
    if let Some(p) = setting_head(s, pos, &wpc) {
        if let Some((v, e)) = int_u8(s, p) {
            let pc: u8 = if v == 0 {
                0
            } else {
                v - 1
            };
            return Some((TrackModifier::ProgramChange(pc), e));
        }
    }
    if let Some(p) = setting_head(s, pos, &woct) {
        if let Some((o, e)) = int_i32(s, p) {
            return Some((TrackModifier::Octave(o), e));
        }
    }
    if let Some(p) = setting_head(s, pos, &wseed) {
        if let Some((base, e)) = int_u64(s, p) {
            return match seed_interval(s, e) {
                Some((iv, e2)) => Some((TrackModifier::Seed(SeedDef { base, interval: Some(iv) }), e2)),
                None => Some((TrackModifier::Seed(SeedDef { base, interval: None }), e)),
            };
        }
    }
    None
}

fn padded_mod(s: &Vec<char>, pos: usize) -> (r: Option<(TrackModifier, usize)>)
    requires
        pos <= s@.len() <= usize::MAX,
    ensures
        crate::ast::agrees(r, spec_padded_mod(s@, pos)),
        r matches Some((_, e)) ==> pos < e <= s@.len(),
{
    proof {
        lemma_padded_mod(s@, pos);
    }
    let p0 = padding(s, pos);
    let (m, e) = track_modifier(s, p0)?;
    Some((m, padding(s, e)))
}

/// The view of a list of settings.
pub open spec fn mods_view(v: Seq<TrackModifier>) -> Seq<STrackMod> {
    v.map_values(|m: TrackModifier| m@)
}

fn mods(s: &Vec<char>, pos: usize) -> (r: (Vec<TrackModifier>, usize))
    requires
        pos <= s@.len() <= usize::MAX,
    ensures
        mods_view(r.0@) == spec_mods(s@, pos).0,
        r.1 == spec_mods(s@, pos).1,
        pos <= r.1 <= s@.len(),
{
    let mut out: Vec<TrackModifier> = Vec::new();
    let (m, p1) = match padded_mod(s, pos) {
        Some(x) => x,
        None => {
            assert(mods_view(out@) =~= Seq::<STrackMod>::empty());
            return (out, pos);
        },
    };
    out.push(m);
    let mut p = p1;
    let ghost target = spec_mods(s@, pos);
    proof {
        assert(target.0 =~= mods_view(out@) + spec_mods_rest(s@, p).0);
    }
    loop
        invariant
            pos <= p <= s@.len() <= usize::MAX,
            target == spec_mods(s@, pos),
            target.0 == mods_view(out@) + spec_mods_rest(s@, p).0,
            target.1 == spec_mods_rest(s@, p).1,
        decreases s@.len() - p,
    {
        let q = match pad_char(s, p, ',') {
            Some(q1) => q1,
            None => {
                assert(target.0 =~= mods_view(out@));
                return (out, p);
            },
        };
        match padded_mod(s, q) {
            Some((m2, p2)) => {
                proof {
                    let rest = spec_mods_rest(s@, p2).0;
                    assert(mods_view(out@.push(m2)) =~= mods_view(out@).push(m2@));
                    assert(mods_view(out@) + (seq![m2@] + rest) =~= mods_view(out@).push(m2@) + rest);
                }
                out.push(m2);
                p = p2;
            },
            None => {
                assert(target.0 =~= mods_view(out@));
                return (out, p);
            },
        }
    }
}

fn mod_block(s: &Vec<char>, pos: usize) -> (r: Option<(Vec<TrackModifier>, usize)>)
    requires
        pos <= s@.len() <= usize::MAX,
    ensures
        match r {
            Some((v, e)) => spec_mod_block(s@, pos) == Some((mods_view(v@), e)) && pos < e
                <= s@.len(),
            None => spec_mod_block(s@, pos) is None,
        },
{
    let p1 = pad_char(s, pos, '(')?;
    let (ms, p2) = mods(s, p1);
    let p3 = pad_char(s, p2, ')')?;
    Some((ms, p3))
}

fn track_header(s: &Vec<char>, pos: usize) -> (r: Option<(bool, u8, Vec<TrackModifier>, usize)>)
    requires
        pos <= s@.len() <= usize::MAX,
    ensures
        match r {
            Some((m, n, v, e)) => spec_track_header(s@, pos) == Some((m, n, mods_view(v@), e))
                && pos < e <= s@.len(),
            None => spec_track_header(s@, pos) is None,
        },
{
    let p0 = padding(s, pos);
    let (muted, p1) = match just(s, p0, '!') {
        Some(q) => (true, q),
        None => (false, p0),
    };
    let p2 = just(s, p1, 'T')?;
    let (n, p3) = int_u8(s, p2)?;
    let (ms, p4) = match mod_block(s, p3) {
        Some(x) => x,
        None => {
            let none: Vec<TrackModifier> = Vec::new();
            assert(mods_view(none@) =~= Seq::<STrackMod>::empty());
            (none, p3)
        },
    };
    let p5 = pad_char(s, p4, ':')?;
    Some((muted, n, ms, padding(s, p5)))
}

/// The exec counterpart of the track settings.
struct Settings {
    span: Option<usize>,
    scale: Option<ScaleDef>,
    seed: Option<SeedDef>,
    octave: i32,
    pc: Option<u8>,
}

impl View for Settings {
    type V = TrackSettings;

    closed spec fn view(&self) -> TrackSettings {
        TrackSettings {
            span: self.span,
            scale: crate::ast::opt_scale_view(self.scale),
            seed: self.seed,
            octave: self.octave,
            pc: self.pc,
        }
    }
}

fn collect_settings(ms: &Vec<TrackModifier>) -> (r: Option<Settings>)
    ensures
        match r {
            Some(st) => settings_of(mods_view(ms@)) == Some(st@),
            None => settings_of(mods_view(ms@)) is None,
        },
{
    let mut st = Settings { span: None, scale: None, seed: None, octave: 0, pc: None };
    let mut i: usize = 0;
    proof {
        assert(mods_view(ms@).take(0) =~= Seq::<STrackMod>::empty());
    }
    while i < ms.len()
        invariant
            0 <= i <= ms@.len(),
            settings_of(mods_view(ms@).take(i as int)) == Some(st@),
        decreases ms.len() - i,
    {
        proof {
            assert(mods_view(ms@).take(i + 1).drop_last() =~= mods_view(ms@).take(i as int));
            assert(mods_view(ms@).take(i + 1).last() == ms@[i as int]@);
        }
        match &ms[i] {
            TrackModifier::Span(n) => {
                st.span = Some(*n);
            },
            TrackModifier::Scale(sc) => {
                st.scale = Some(crate::ast::clone_scale(sc));
            },
            TrackModifier::Seed(sd) => {
                st.seed = Some(*sd);
            },
            TrackModifier::Octave(o) => {
                let sum: i64 = st.octave as i64 + *o as i64;
                if sum < i32::MIN as i64 || sum > i32::MAX as i64 {
                    proof {
                        lemma_settings_none_extends(mods_view(ms@), (i + 1) as int);
                    }
                    return None;
                }
                st.octave = sum as i32;
            },
            TrackModifier::ProgramChange(p) => {
                st.pc = Some(*p);
            },
        }
        i += 1;
    }
    proof {
        assert(mods_view(ms@).take(ms@.len() as int) =~= mods_view(ms@));
    }
    Some(st)
}

/// Once the settings fail, any longer list fails too.
proof fn lemma_settings_none_extends(ms: Seq<STrackMod>, k: int)
    requires
        0 <= k <= ms.len(),
        settings_of(ms.take(k)) is None,
    ensures
        settings_of(ms) is None,
    decreases ms.len() - k,
{
    if k < ms.len() {
        assert(ms.take(k + 1).drop_last() =~= ms.take(k));
        lemma_settings_none_extends(ms, k + 1);
    } else {
        assert(ms.take(k) =~= ms);
    }
}

fn make_track(muted: bool, n: u8, st: Settings, items: Vec<Node>) -> (t: Track)
    ensures
        t@ == (STrack {
            channel: track_channel(n),
            is_muted: muted,
            scale: st@.scale,
            seed: st@.seed,
            octave_offset: st@.octave,
            program_change: st@.pc,
            root_node: track_root(crate::ast::nodes_view(items@), st@.span),
        }),
{
    let ghost iv = crate::ast::nodes_view(items@);
    let ghost sv = st@;
    let seq_node = Node::Sequence(items);
    let root = match st.span {
        Some(k) => Node::Modified(Box::new(seq_node), vec![Modifier::Span(k)]),
        None => seq_node,
    };
    proof {
        if let Some(k) = st.span {
            assert(root->Modified_1@ =~= seq![Modifier::Span(k)]);
        }
        assert(root@ == track_root(iv, sv.span));
    }
    let channel: u8 = if n == 0 {
        0
    } else if n - 1 > 15 {
        15
    } else {
        n - 1
    };
    Track {
        channel,
        is_muted: muted,
        scale: st.scale,
        seed: st.seed,
        octave_offset: st.octave,
        program_change: st.pc,
        root_node: root,
    }
}

/// Parses a track definition: its header, then its expressions.
pub fn track_parser(s: &Vec<char>, pos: usize) -> (r: Option<(Track, usize)>)
    requires
        pos <= s@.len() <= usize::MAX,
    ensures
        crate::ast::agrees(r, spec_track(s@, pos)),
        r matches Some((_, e)) ==> pos < e <= s@.len(),
{
    let (muted, n, ms, p) = track_header(s, pos)?;
    let st = collect_settings(&ms)?;
    let (items, p2) = expr_list(s, p);
    let p3 = padding(s, p2);
    Some((make_track(muted, n, st, items), p3))
}

} // verus!

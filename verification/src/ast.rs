//! The abstract syntax of an `.mmn` program, and the mathematical views that
//! the contracts of the parser, the macro expander and the renderer speak of.
use vstd::prelude::*;

verus! {

/// A pitch: a scale degree plus a number of accidentals (`#` counts +1,
/// `b` counts -1), or a MIDI note written by name (`C4`), which no scale
/// moves.
#[derive(Clone, Copy, Debug, PartialEq, Eq, Structural)]
pub enum Pitch {
    Numeric(i32, i32),
    Absolute(u8),
}

/// Which end of a chord `extract` keeps.
#[derive(Clone, Copy, Debug, PartialEq, Eq, Structural)]
pub enum ExtractType {
    Highest,
    Lowest,
}

/// The arpeggiator orders.
#[derive(Clone, Copy, Debug, PartialEq, Eq, Structural)]
pub enum ArpStyle {
    Up,
    Down,
    UpDown,
    DownUp,
    Converge,
    Diverge,
    PinkyUp,
    PinkyUpDown,
}

/// When a staged program may replace the playing one.
#[derive(Clone, Copy, Debug, PartialEq, Eq, Structural)]
pub enum QuantizeMode {
    Fixed(usize),
    Auto,
}

/// A decimal literal exactly as written: `(-1)^negative * mantissa / 10^scale`.
/// The digits of the literal, with the point removed, form `mantissa`;
/// `scale` is the number of digits after the point.
#[derive(Clone, Copy, Debug, PartialEq, Eq, Structural)]
pub struct Decimal {
    pub negative: bool,
    pub mantissa: u64,
    pub scale: u32,
}

/// The value of a controller: a constant or a low-frequency oscillator
/// `(min, max, speed)`.
#[derive(Clone, Copy, Debug, PartialEq, Eq, Structural)]
pub enum DynamicValue {
    Static(u8),
    Sine(u8, u8, Decimal),
    Saw(u8, u8, Decimal),
    Tri(u8, u8, Decimal),
}

/// A scale: a root MIDI pitch and the semitone offsets of its degrees.
#[derive(Clone, Debug, PartialEq, Eq)]
pub struct ScaleDef {
    pub root_pitch: u8,
    pub intervals: Vec<u8>,
}

/// A sequence of scales over the cycles of a song.
#[derive(Clone, Debug, PartialEq, Eq)]
pub enum ScaleSequence {
    Explicit(Vec<(usize, usize, ScaleDef)>),
    Algorithmic { base_scale: ScaleDef, shift_semitones: i32, macro_cycles_per_step: usize },
}

/// How often a track's random seed is bumped.
#[derive(Clone, Copy, Debug, PartialEq, Eq, Structural)]
pub enum SeedInterval {
    Micro(usize),
    Macro(usize),
    Track(usize),
}

/// A track's random seed and its optional bump interval.
#[derive(Clone, Copy, Debug, PartialEq, Eq, Structural)]
pub struct SeedDef {
    pub base: u64,
    pub interval: Option<SeedInterval>,
}

/// Options of a MIDI file import.
#[derive(Clone, Debug, PartialEq, Eq)]
pub struct MidiImportOptions {
    pub path: String,
    pub target_scale: String,
    pub format: String,
    pub grid: usize,
    pub beats: Decimal,
    pub subdivide: bool,
    pub preserve_velocity: bool,
    pub snap_to_grid: bool,
    pub chords: bool,
    pub debug: bool,
}

/// A postfix modifier attached to a node.
#[derive(Clone, Copy, Debug, PartialEq, Eq, Structural)]
pub enum Modifier {
    Euclidean(u8, u8),
    Span(usize),
    Arp(ArpStyle),
    Ratchet(u8),
    Stut(u8, Decimal, Decimal),
    Humanize(u8, Decimal),
    Probability(u8),
    Invert(i32),
    Drop(u8),
    Transpose(i32),
    Strum(Decimal),
    ExtractPitch(ExtractType, Option<i32>, i32),
    Chordify(Option<i32>, i32),
    VelocityOverride(u8),
    GateOverride(u8),
    PhaseShift(Decimal),
    Wrap,
}

/// Which cycle count a condition looks at: the cycle itself, the
/// macro-cycle (the whole pattern's loop) throughout, or only the first
/// cycle of a macro-cycle.
#[derive(Clone, Copy, Debug, PartialEq, Eq, Structural)]
pub enum CondScope {
    Cycle,
    Macro,
    MacroFirst,
}

/// A node of a pattern.
#[derive(Debug)]
pub enum Node {
    Note { pitch: Pitch, velocity: u8, gate: u8 },
    CC { controller: u8, value: DynamicValue },
    Chord(Vec<Node>),
    Rest,
    Hold,
    Ref(String, Vec<Node>),
    Sequence(Vec<Node>),
    ShuffledSequence(Vec<Node>),
    Parallel(Vec<Vec<Node>>),
    Polymeter(Vec<Vec<Node>>),
    Arrange(Vec<(usize, usize, Box<Node>)>),
    Alternator(Vec<Node>),
    RandomChoice(Vec<(u32, Node)>),
    WithScale(ScaleDef, Box<Node>),
    Struct(Box<Node>, Box<Node>),
    Modified(Box<Node>, Vec<Modifier>),
    MidiImport(MidiImportOptions),
    /// Plays `then_branch` on the cycles where the count that `scope`
    /// names is `offset` modulo `interval`, `else_branch` on the others.
    Condition { scope: CondScope, interval: usize, offset: usize, then_branch: Box<Node>, else_branch: Box<Node> },
}

/// A macro: its parameter names and its body.
#[derive(Debug)]
pub struct MacroDef {
    pub params: Vec<String>,
    pub body: Node,
}

/// A track: its MIDI channel (0-based), settings and pattern.
#[derive(Debug)]
pub struct Track {
    pub channel: u8,
    pub is_muted: bool,
    pub scale: Option<ScaleDef>,
    pub seed: Option<SeedDef>,
    pub octave_offset: i32,
    pub program_change: Option<u8>,
    pub root_node: Node,
}

/// A whole program. `aliases` holds each macro name once, in the order in
/// which the names were first defined.
#[derive(Debug)]
pub struct Program {
    pub bpm: Option<Decimal>,
    pub signature: Option<(u8, u8)>,
    pub quantize: Option<QuantizeMode>,
    pub scale: Option<ScaleDef>,
    pub scale_seq: Option<ScaleSequence>,
    pub global_silence: bool,
    pub includes: Vec<String>,
    pub aliases: Vec<(String, MacroDef)>,
    pub tracks: Vec<Track>,
}

// ---------------------------------------------------------------------
// Mathematical views
// ---------------------------------------------------------------------

/// The view of a scale.
pub struct SScale {
    pub root_pitch: u8,
    pub intervals: Seq<u8>,
}

/// The view of a scale sequence.
pub enum SScaleSeq {
    Explicit(Seq<(usize, usize, SScale)>),
    Algorithmic { base_scale: SScale, shift_semitones: i32, macro_cycles_per_step: usize },
}

/// The view of a node: vectors become sequences and names become sequences of characters.
pub enum SNode {
    Note { pitch: Pitch, velocity: u8, gate: u8 },
    CC { controller: u8, value: DynamicValue },
    Chord(Seq<SNode>),
    Rest,
    Hold,
    Ref(Seq<char>, Seq<SNode>),
    Sequence(Seq<SNode>),
    ShuffledSequence(Seq<SNode>),
    Parallel(Seq<Seq<SNode>>),
    Polymeter(Seq<Seq<SNode>>),
    Arrange(Seq<(usize, usize, SNode)>),
    Alternator(Seq<SNode>),
    RandomChoice(Seq<(u32, SNode)>),
    WithScale(SScale, Box<SNode>),
    Struct(Box<SNode>, Box<SNode>),
    Modified(Box<SNode>, Seq<Modifier>),
    MidiImport(SImport),
    Condition { scope: CondScope, interval: usize, offset: usize, then_branch: Box<SNode>, else_branch: Box<SNode> },
}

/// The view of import options.
pub struct SImport {
    pub path: Seq<char>,
    pub target_scale: Seq<char>,
    pub format: Seq<char>,
    pub grid: usize,
    pub beats: Decimal,
    pub subdivide: bool,
    pub preserve_velocity: bool,
    pub snap_to_grid: bool,
    pub chords: bool,
    pub debug: bool,
}

impl View for MidiImportOptions {
    type V = SImport;

    open spec fn view(&self) -> SImport {
        SImport {
            path: self.path@,
            target_scale: self.target_scale@,
            format: self.format@,
            grid: self.grid,
            beats: self.beats,
            subdivide: self.subdivide,
            preserve_velocity: self.preserve_velocity,
            snap_to_grid: self.snap_to_grid,
            chords: self.chords,
            debug: self.debug,
        }
    }
}

/// The view of a macro definition.
pub struct SMacro {
    pub params: Seq<Seq<char>>,
    pub body: SNode,
}

/// The view of a track.
pub struct STrack {
    pub channel: u8,
    pub is_muted: bool,
    pub scale: Option<SScale>,
    pub seed: Option<SeedDef>,
    pub octave_offset: i32,
    pub program_change: Option<u8>,
    pub root_node: SNode,
}

/// The view of a program.
pub struct SProgram {
    pub bpm: Option<Decimal>,
    pub signature: Option<(u8, u8)>,
    pub quantize: Option<QuantizeMode>,
    pub scale: Option<SScale>,
    pub scale_seq: Option<SScaleSeq>,
    pub global_silence: bool,
    pub includes: Seq<Seq<char>>,
    pub aliases: Seq<(Seq<char>, SMacro)>,
    pub tracks: Seq<STrack>,
}

impl View for ScaleDef {
    type V = SScale;

    open spec fn view(&self) -> SScale {
        SScale { root_pitch: self.root_pitch, intervals: self.intervals@ }
    }
}

pub open spec fn opt_scale_view(o: Option<ScaleDef>) -> Option<SScale> {
    match o {
        Some(s) => Some(s@),
        None => None,
    }
}

impl View for ScaleSequence {
    type V = SScaleSeq;

    open spec fn view(&self) -> SScaleSeq {
        match self {
            ScaleSequence::Explicit(v) => SScaleSeq::Explicit(
                v@.map_values(|e: (usize, usize, ScaleDef)| (e.0, e.1, e.2@)),
            ),
            ScaleSequence::Algorithmic { base_scale, shift_semitones, macro_cycles_per_step } =>
                SScaleSeq::Algorithmic {
                base_scale: base_scale@,
                shift_semitones: *shift_semitones,
                macro_cycles_per_step: *macro_cycles_per_step,
            },
        }
    }
}

/// The view of a sequence of nodes.
pub open spec fn nodes_view(v: Seq<Node>) -> Seq<SNode>
    decreases v,
{
    Seq::new(
        v.len(),
        |i: int|
            if 0 <= i < v.len() {
                proof {
                    assert(decreases_to!(v => v[i]));
                }
                node_view(v[i])
            } else {
                SNode::Rest
            },
    )
}

/// The view of a node.
pub open spec fn node_view(n: Node) -> SNode
    decreases n,
{
    match n {
        Node::Note { pitch, velocity, gate } => SNode::Note { pitch, velocity, gate },
        Node::CC { controller, value } => SNode::CC { controller, value },
        Node::Chord(v) => {
            proof {
                assert(decreases_to!(n => v));
                assert(decreases_to!(v => v@));
            }
            SNode::Chord(nodes_view(v@))
        },
        Node::Rest => SNode::Rest,
        Node::Hold => SNode::Hold,
        Node::Ref(name, v) => {
            proof {
                assert(decreases_to!(n => v));
                assert(decreases_to!(v => v@));
            }
            SNode::Ref(name@, nodes_view(v@))
        },
        Node::Sequence(v) => {
            proof {
                assert(decreases_to!(n => v));
                assert(decreases_to!(v => v@));
            }
            SNode::Sequence(nodes_view(v@))
        },
        Node::ShuffledSequence(v) => {
            proof {
                assert(decreases_to!(n => v));
                assert(decreases_to!(v => v@));
            }
            SNode::ShuffledSequence(nodes_view(v@))
        },
        Node::Parallel(v) => {
            proof {
                assert(decreases_to!(n => v));
                assert(decreases_to!(v => v@));
            }
            SNode::Parallel(layers_view(v@))
        },
        Node::Polymeter(v) => {
            proof {
                assert(decreases_to!(n => v));
                assert(decreases_to!(v => v@));
            }
            SNode::Polymeter(layers_view(v@))
        },
        Node::Arrange(v) => {
            proof {
                assert(decreases_to!(n => v));
                assert(decreases_to!(v => v@));
            }
            SNode::Arrange(segments_view(v@))
        },
        Node::Alternator(v) => {
            proof {
                assert(decreases_to!(n => v));
                assert(decreases_to!(v => v@));
            }
            SNode::Alternator(nodes_view(v@))
        },
        Node::RandomChoice(v) => {
            proof {
                assert(decreases_to!(n => v));
                assert(decreases_to!(v => v@));
            }
            SNode::RandomChoice(weighted_view(v@))
        },
        Node::WithScale(sc, b) => SNode::WithScale(sc@, Box::new(node_view(*b))),
        Node::Struct(a, b) => SNode::Struct(Box::new(node_view(*a)), Box::new(node_view(*b))),
        Node::Modified(b, mods) => SNode::Modified(Box::new(node_view(*b)), mods@),
        Node::MidiImport(o) => SNode::MidiImport(o@),
        Node::Condition { scope, interval, offset, then_branch, else_branch } => SNode::Condition {
            scope,
            interval,
            offset,
            then_branch: Box::new(node_view(*then_branch)),
            else_branch: Box::new(node_view(*else_branch)),
        },
    }
}

/// The view of a sequence of layers.
pub open spec fn layers_view(v: Seq<Vec<Node>>) -> Seq<Seq<SNode>>
    decreases v,
{
    Seq::new(
        v.len(),
        |i: int|
            if 0 <= i < v.len() {
                proof {
                    assert(decreases_to!(v => v[i]));
                    assert(decreases_to!(v[i] => v[i]@));
                }
                nodes_view(v[i]@)
            } else {
                Seq::empty()
            },
    )
}

/// The view of arrangement segments.
pub open spec fn segments_view(v: Seq<(usize, usize, Box<Node>)>) -> Seq<(usize, usize, SNode)>
    decreases v,
{
    Seq::new(
        v.len(),
        |i: int|
            if 0 <= i < v.len() {
                proof {
                    assert(decreases_to!(v => v[i]));
                    assert(decreases_to!(v[i] => v[i].2));
                }
                (v[i].0, v[i].1, node_view(*v[i].2))
            } else {
                (0, 0, SNode::Rest)
            },
    )
}

/// The view of weighted choices.
pub open spec fn weighted_view(v: Seq<(u32, Node)>) -> Seq<(u32, SNode)>
    decreases v,
{
    Seq::new(
        v.len(),
        |i: int|
            if 0 <= i < v.len() {
                proof {
                    assert(decreases_to!(v => v[i]));
                    assert(decreases_to!(v[i] => v[i].1));
                }
                (v[i].0, node_view(v[i].1))
            } else {
                (0, SNode::Rest)
            },
    )
}

impl View for Node {
    type V = SNode;

    open spec fn view(&self) -> SNode {
        node_view(*self)
    }
}

pub open spec fn strings_view(v: Seq<String>) -> Seq<Seq<char>> {
    v.map_values(|s: String| s@)
}

impl View for MacroDef {
    type V = SMacro;

    open spec fn view(&self) -> SMacro {
        SMacro { params: strings_view(self.params@), body: self.body@ }
    }
}

impl View for Track {
    type V = STrack;

    open spec fn view(&self) -> STrack {
        STrack {
            channel: self.channel,
            is_muted: self.is_muted,
            scale: opt_scale_view(self.scale),
            seed: self.seed,
            octave_offset: self.octave_offset,
            program_change: self.program_change,
            root_node: self.root_node@,
        }
    }
}

pub open spec fn aliases_view(v: Seq<(String, MacroDef)>) -> Seq<(Seq<char>, SMacro)> {
    v.map_values(|e: (String, MacroDef)| (e.0@, e.1@))
}

impl View for Program {
    type V = SProgram;

    open spec fn view(&self) -> SProgram {
        SProgram {
            bpm: self.bpm,
            signature: self.signature,
            quantize: self.quantize,
            scale: opt_scale_view(self.scale),
            scale_seq: match self.scale_seq {
                Some(q) => Some(q@),
                None => None,
            },
            global_silence: self.global_silence,
            includes: strings_view(self.includes@),
            aliases: aliases_view(self.aliases@),
            tracks: self.tracks@.map_values(|t: Track| t@),
        }
    }
}

} // verus!

verus! {

pub proof fn lemma_nodes_view_push(v: Seq<Node>, x: Node)
    ensures
        nodes_view(v.push(x)) == nodes_view(v).push(x@),
{
    assert(nodes_view(v.push(x)) =~= nodes_view(v).push(x@));
}

pub proof fn lemma_nodes_view_empty()
    ensures
        nodes_view(Seq::<Node>::empty()) == Seq::<SNode>::empty(),
{
    assert(nodes_view(Seq::<Node>::empty()) =~= Seq::<SNode>::empty());
}

pub proof fn lemma_layers_view_push(v: Seq<Vec<Node>>, x: Vec<Node>)
    ensures
        layers_view(v.push(x)) == layers_view(v).push(nodes_view(x@)),
{
    assert(layers_view(v.push(x)) =~= layers_view(v).push(nodes_view(x@)));
}

pub proof fn lemma_segments_view_push(v: Seq<(usize, usize, Box<Node>)>, x: (usize, usize, Box<Node>))
    ensures
        segments_view(v.push(x)) == segments_view(v).push((x.0, x.1, node_view(*x.2))),
{
    assert(segments_view(v.push(x)) =~= segments_view(v).push((x.0, x.1, node_view(*x.2))));
}

pub proof fn lemma_weighted_view_push(v: Seq<(u32, Node)>, x: (u32, Node))
    ensures
        weighted_view(v.push(x)) == weighted_view(v).push((x.0, node_view(x.1))),
{
    assert(weighted_view(v.push(x)) =~= weighted_view(v).push((x.0, node_view(x.1))));
}

/// Whether an optional result carries the view of what a spec result holds.
pub open spec fn agrees<T: View>(r: Option<(T, usize)>, sp: Option<(T::V, usize)>) -> bool {
    match r {
        Some((x, p)) => sp == Some((x@, p)),
        None => sp is None,
    }
}

} // verus!

verus! {

/// A copy of a scale.
pub fn clone_scale(sc: &ScaleDef) -> (r: ScaleDef)
    ensures
        r@ == sc@,
{
    let mut v: Vec<u8> = Vec::new();
    let mut i: usize = 0;
    while i < sc.intervals.len()
        invariant
            0 <= i <= sc.intervals@.len(),
            v@ == sc.intervals@.take(i as int),
        decreases sc.intervals.len() - i,
    {
        v.push(sc.intervals[i]);
        proof {
            assert(v@ =~= sc.intervals@.take(i + 1));
        }
        i += 1;
    }
    assert(v@ =~= sc.intervals@);
    ScaleDef { root_pitch: sc.root_pitch, intervals: v }
}

/// A copy of a string.
pub fn clone_string(s: &String) -> (r: String)
    ensures
        r@ == s@,
{
    s.clone()
}

/// A copy of a list of nodes.
#[verifier::loop_isolation(false)]
pub fn clone_nodes(v: &Vec<Node>) -> (r: Vec<Node>)
    ensures
        nodes_view(r@) == nodes_view(v@),
    decreases v,
{
    let mut out: Vec<Node> = Vec::new();
    let mut i: usize = 0;
    proof {
        lemma_nodes_view_empty();
    }
    while i < v.len()
        invariant
            0 <= i <= v@.len(),
            nodes_view(out@) == nodes_view(v@.take(i as int)),
        decreases v.len() - i,
    {
        proof {
            assert(decreases_to!(v => v@));
            assert(decreases_to!(v@ => v@[i as int]));
        }
        let c = clone_node(&v[i]);
        proof {
            lemma_nodes_view_push(out@, c);
            assert(v@.take(i + 1) =~= v@.take(i as int).push(v@[i as int]));
            lemma_nodes_view_push(v@.take(i as int), v@[i as int]);
        }
        out.push(c);
        i += 1;
    }
    assert(v@.take(v@.len() as int) =~= v@);
    out
}

/// A copy of a list of layers.
#[verifier::loop_isolation(false)]
pub fn clone_layers(v: &Vec<Vec<Node>>) -> (r: Vec<Vec<Node>>)
    ensures
        layers_view(r@) == layers_view(v@),
    decreases v,
{
    let mut out: Vec<Vec<Node>> = Vec::new();
    let mut i: usize = 0;
    assert(layers_view(out@) =~= layers_view(v@.take(0)));
    while i < v.len()
        invariant
            0 <= i <= v@.len(),
            layers_view(out@) == layers_view(v@.take(i as int)),
        decreases v.len() - i,
    {
        proof {
            assert(decreases_to!(v => v@));
            assert(decreases_to!(v@ => v@[i as int]));
        }
        let c = clone_nodes(&v[i]);
        proof {
            lemma_layers_view_push(out@, c);
            assert(v@.take(i + 1) =~= v@.take(i as int).push(v@[i as int]));
            lemma_layers_view_push(v@.take(i as int), v@[i as int]);
        }
        out.push(c);
        i += 1;
    }
    assert(v@.take(v@.len() as int) =~= v@);
    out
}

/// A copy of a node.
pub fn clone_node(n: &Node) -> (r: Node)
    ensures
        r@ == n@,
    decreases n,
{
    match n {
        Node::Note { pitch, velocity, gate } => Node::Note { pitch: *pitch, velocity: *velocity, gate: *gate },
        Node::CC { controller, value } => Node::CC { controller: *controller, value: *value },
        Node::Chord(v) => Node::Chord(clone_nodes(v)),
        Node::Rest => Node::Rest,
        Node::Hold => Node::Hold,
        Node::Ref(name, v) => Node::Ref(clone_string(name), clone_nodes(v)),
        Node::Sequence(v) => Node::Sequence(clone_nodes(v)),
        Node::ShuffledSequence(v) => Node::ShuffledSequence(clone_nodes(v)),
        Node::Parallel(v) => Node::Parallel(clone_layers(v)),
        Node::Polymeter(v) => Node::Polymeter(clone_layers(v)),
        Node::Arrange(v) => Node::Arrange(clone_segments(v)),
        Node::Alternator(v) => Node::Alternator(clone_nodes(v)),
        Node::RandomChoice(v) => Node::RandomChoice(clone_weighted(v)),
        Node::WithScale(sc, b) => Node::WithScale(clone_scale(sc), Box::new(clone_node(b))),
        Node::Struct(a, b) => Node::Struct(Box::new(clone_node(a)), Box::new(clone_node(b))),
        Node::Condition { scope, interval, offset, then_branch, else_branch } => Node::Condition {
            scope: *scope,
            interval: *interval,
            offset: *offset,
            then_branch: Box::new(clone_node(then_branch)),
            else_branch: Box::new(clone_node(else_branch)),
        },
        Node::Modified(b, mods) => {
            let c = clone_node(b);
            let ms = mods.clone();
            assert(ms@ =~= mods@);
            Node::Modified(Box::new(c), ms)
        },
        Node::MidiImport(o) => Node::MidiImport(clone_import(o)),
    }
}

/// A copy of import options.
pub fn clone_import(o: &MidiImportOptions) -> (r: MidiImportOptions)
    ensures
        r@ == o@,
{
    MidiImportOptions {
        path: clone_string(&o.path),
        target_scale: clone_string(&o.target_scale),
        format: clone_string(&o.format),
        grid: o.grid,
        beats: o.beats,
        subdivide: o.subdivide,
        preserve_velocity: o.preserve_velocity,
        snap_to_grid: o.snap_to_grid,
        chords: o.chords,
        debug: o.debug,
    }
}

/// A copy of arrangement segments.
#[verifier::loop_isolation(false)]
pub fn clone_segments(v: &Vec<(usize, usize, Box<Node>)>) -> (r: Vec<(usize, usize, Box<Node>)>)
    ensures
        segments_view(r@) == segments_view(v@),
    decreases v,
{
    let mut out: Vec<(usize, usize, Box<Node>)> = Vec::new();
    let mut i: usize = 0;
    assert(segments_view(out@) =~= segments_view(v@.take(0)));
    while i < v.len()
        invariant
            0 <= i <= v@.len(),
            segments_view(out@) == segments_view(v@.take(i as int)),
        decreases v.len() - i,
    {
        proof {
            assert(decreases_to!(v => v@));
            assert(decreases_to!(v@ => v@[i as int]));
            assert(decreases_to!(v@[i as int] => v@[i as int].2));
        }
        let c = clone_node(&v[i].2);
        let e = (v[i].0, v[i].1, Box::new(c));
        proof {
            lemma_segments_view_push(out@, e);
            assert(v@.take(i + 1) =~= v@.take(i as int).push(v@[i as int]));
            lemma_segments_view_push(v@.take(i as int), v@[i as int]);
        }
        out.push(e);
        i += 1;
    }
    assert(v@.take(v@.len() as int) =~= v@);
    out
}

/// A copy of weighted choices.
#[verifier::loop_isolation(false)]
pub fn clone_weighted(v: &Vec<(u32, Node)>) -> (r: Vec<(u32, Node)>)
    ensures
        weighted_view(r@) == weighted_view(v@),
    decreases v,
{
    let mut out: Vec<(u32, Node)> = Vec::new();
    let mut i: usize = 0;
    assert(weighted_view(out@) =~= weighted_view(v@.take(0)));
    while i < v.len()
        invariant
            0 <= i <= v@.len(),
            weighted_view(out@) == weighted_view(v@.take(i as int)),
        decreases v.len() - i,
    {
        proof {
            assert(decreases_to!(v => v@));
            assert(decreases_to!(v@ => v@[i as int]));
            assert(decreases_to!(v@[i as int] => v@[i as int].1));
        }
        let c = clone_node(&v[i].1);
        let e = (v[i].0, c);
        proof {
            lemma_weighted_view_push(out@, e);
            assert(v@.take(i + 1) =~= v@.take(i as int).push(v@[i as int]));
            lemma_weighted_view_push(v@.take(i as int), v@[i as int]);
        }
        out.push(e);
        i += 1;
    }
    assert(v@.take(v@.len() as int) =~= v@);
    out
}


/// The options of an import that sets none: root C4 in major, a chain of
/// 8-step rows, 2 beats per cycle, nothing else.
pub open spec fn default_import_view() -> SImport {
    SImport {
        path: Seq::empty(),
        target_scale: seq!['C', '4', ' ', 'm', 'a', 'j', 'o', 'r'],
        format: seq!['c', 'h', 'a', 'i', 'n'],
        grid: 8,
        beats: Decimal { negative: false, mantissa: 2, scale: 0 },
        subdivide: false,
        preserve_velocity: false,
        snap_to_grid: false,
        chords: false,
        debug: false,
    }
}

impl Default for MidiImportOptions {
    fn default() -> (r: Self)
        ensures
            r@ == default_import_view(),
    {
        let empty: Vec<char> = Vec::new();
        let scale = vec!['C', '4', ' ', 'm', 'a', 'j', 'o', 'r'];
        let format = vec!['c', 'h', 'a', 'i', 'n'];
        let r = MidiImportOptions {
            path: crate::parser::primitives::chars_to_string(&empty),
            target_scale: crate::parser::primitives::chars_to_string(&scale),
            format: crate::parser::primitives::chars_to_string(&format),
            grid: 8,
            beats: Decimal { negative: false, mantissa: 2, scale: 0 },
            subdivide: false,
            preserve_velocity: false,
            snap_to_grid: false,
            chords: false,
            debug: false,
        };
        assert(r@ =~= default_import_view());
        r
    }
}

} // verus!

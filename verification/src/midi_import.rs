//! Turning a MIDI file into pattern text: reading its notes, naming each
//! note as a scale degree, and laying the notes out on a grid.
use vstd::prelude::*;
use crate::parser::primitives::{char_is_ws, digits_val, is_digit, is_ws};
use crate::parser::program::text_chars;
use crate::text::{int_text, nat_text, push_int, push_nat, push_str};
use crate::parser::primitives::chars_to_string;

verus! {

/// `c` in lower case, for ASCII letters.
pub open spec fn ascii_lower(c: char) -> char {
    if 'A' <= c && c <= 'Z' {
        ((c as int) + 32) as char
    } else {
        c
    }
}

/// `c` in upper case, for ASCII letters.
pub open spec fn ascii_upper(c: char) -> char {
    if 'a' <= c && c <= 'z' {
        ((c as int) - 32) as char
    } else {
        c
    }
}

fn lower_char(c: char) -> (r: char)
    ensures
        r == ascii_lower(c),
{
    if 'A' <= c && c <= 'Z' {
        ((c as u8) + 32) as char
    } else {
        c
    }
}

fn upper_char(c: char) -> (r: char)
    ensures
        r == ascii_upper(c),
{
    if 'a' <= c && c <= 'z' {
        ((c as u8) - 32) as char
    } else {
        c
    }
}

/// The scale names a MIDI import knows, and their semitones.
pub open spec fn import_scale_table() -> Seq<(Seq<char>, Seq<i32>)> {
    seq![
        (seq!['m', 'i', 'n', 'o', 'r'], seq![0i32, 2, 3, 5, 7, 8, 10]),
        (seq!['m', 'i', 'n', 'o', 'r', '_', 'p', 'e', 'n', 't', 'a', 't', 'o', 'n', 'i', 'c'], seq![0i32, 3, 5, 7, 10]),
        (seq!['d', 'o', 'r', 'i', 'a', 'n'], seq![0i32, 2, 3, 5, 7, 9, 10]),
        (seq!['p', 'h', 'r', 'y', 'g', 'i', 'a', 'n'], seq![0i32, 1, 3, 5, 7, 8, 10]),
        (seq!['l', 'y', 'd', 'i', 'a', 'n'], seq![0i32, 2, 4, 6, 7, 9, 11]),
        (seq!['m', 'i', 'x', 'o', 'l', 'y', 'd', 'i', 'a', 'n'], seq![0i32, 2, 4, 5, 7, 9, 10]),
        (seq!['l', 'o', 'c', 'r', 'i', 'a', 'n'], seq![0i32, 1, 3, 5, 6, 8, 10]),
        (seq!['p', 'e', 'n', 't', 'a', 't', 'o', 'n', 'i', 'c'], seq![0i32, 2, 4, 7, 9]),
        (seq!['c', 'h', 'r', 'o', 'm', 'a', 't', 'i', 'c'], seq![0i32, 1, 2, 3, 4, 5, 6, 7, 8, 9, 10, 11]),
    ]
}

/// The major scale, used for any name the table lacks.
pub open spec fn major_semitones() -> Seq<i32> {
    seq![0i32, 2, 4, 5, 7, 9, 11]
}

/// The semitones of the first table entry from `i` on whose name is `name`.
pub open spec fn scale_lookup(name: Seq<char>, i: int) -> Seq<i32>
    decreases import_scale_table().len() - i,
{
    if i < 0 || i >= import_scale_table().len() {
        major_semitones()
    } else if import_scale_table()[i].0 == name {
        import_scale_table()[i].1
    } else {
        scale_lookup(name, i + 1)
    }
}

/// The semitones of the scale named `name`, the name compared without
/// regard to case; major when the name is unknown. (No non-ASCII
/// character lowers to a letter of these names, so comparing ASCII case
/// alone decides the same.)
pub open spec fn scale_semitones(name: Seq<char>) -> Seq<i32> {
    scale_lookup(name.map_values(|c: char| ascii_lower(c)), 0)
}

fn seq_vec(a: &[i32]) -> (r: Vec<i32>)
    ensures
        r@ == a@,
{
    let mut v: Vec<i32> = Vec::new();
    let mut i: usize = 0;
    while i < a.len()
        invariant
            0 <= i <= a@.len(),
            v@ == a@.take(i as int),
        decreases a.len() - i,
    {
        v.push(a[i]);
        proof {
            assert(a@.take(i + 1) =~= a@.take(i as int).push(a@[i as int]));
        }
        i += 1;
    }
    assert(a@.take(a@.len() as int) =~= a@);
    v
}

fn same_chars(a: &Vec<char>, b: &[char]) -> (r: bool)
    ensures
        r == (a@ == b@),
{
    if a.len() != b.len() {
        return false;
    }
    let mut i: usize = 0;
    while i < a.len()
        invariant
            0 <= i <= a@.len(),
            a@.len() == b@.len(),
            forall|k: int| 0 <= k < i ==> a@[k] == b@[k],
        decreases a.len() - i,
    {
        if a[i] != b[i] {
            return false;
        }
        i += 1;
    }
    assert(a@ =~= b@);
    true
}

/// The semitones of a scale named in an import's target.
pub fn get_scale_intervals(name: &str) -> (r: Vec<i32>)
    ensures
        r@ == scale_semitones(name@),
{
    let chars = text_chars(name);
    let mut low: Vec<char> = Vec::new();
    let mut i: usize = 0;
    while i < chars.len()
        invariant
            0 <= i <= chars@.len(),
            low@ == chars@.take(i as int).map_values(|c: char| ascii_lower(c)),
        decreases chars.len() - i,
    {
        let c = lower_char(chars[i]);
        proof {
            assert(chars@.take(i + 1).map_values(|c: char| ascii_lower(c)) =~= chars@.take(i as int).map_values(
                |c: char| ascii_lower(c),
            ).push(c));
        }
        low.push(c);
        i += 1;
    }
    assert(chars@.take(chars@.len() as int) =~= chars@);
    let ghost lv = low@;
    proof {
        reveal_with_fuel(scale_lookup, 10);
    }
    if same_chars(&low, &['m', 'i', 'n', 'o', 'r']) {
        return seq_vec(&[0, 2, 3, 5, 7, 8, 10]);
    }
    if same_chars(&low, &['m', 'i', 'n', 'o', 'r', '_', 'p', 'e', 'n', 't', 'a', 't', 'o', 'n', 'i', 'c']) {
        return seq_vec(&[0, 3, 5, 7, 10]);
    }
    if same_chars(&low, &['d', 'o', 'r', 'i', 'a', 'n']) {
        return seq_vec(&[0, 2, 3, 5, 7, 9, 10]);
    }
    if same_chars(&low, &['p', 'h', 'r', 'y', 'g', 'i', 'a', 'n']) {
        return seq_vec(&[0, 1, 3, 5, 7, 8, 10]);
    }
    if same_chars(&low, &['l', 'y', 'd', 'i', 'a', 'n']) {
        return seq_vec(&[0, 2, 4, 6, 7, 9, 11]);
    }
    if same_chars(&low, &['m', 'i', 'x', 'o', 'l', 'y', 'd', 'i', 'a', 'n']) {
        return seq_vec(&[0, 2, 4, 5, 7, 9, 10]);
    }
    if same_chars(&low, &['l', 'o', 'c', 'r', 'i', 'a', 'n']) {
        return seq_vec(&[0, 1, 3, 5, 6, 8, 10]);
    }
    if same_chars(&low, &['p', 'e', 'n', 't', 'a', 't', 'o', 'n', 'i', 'c']) {
        return seq_vec(&[0, 2, 4, 7, 9]);
    }
    if same_chars(&low, &['c', 'h', 'r', 'o', 'm', 'a', 't', 'i', 'c']) {
        return seq_vec(&[0, 1, 2, 3, 4, 5, 6, 7, 8, 9, 10, 11]);
    }
    seq_vec(&[0, 2, 4, 5, 7, 9, 11])
}


/// The number of white-space characters that start `s`.
pub open spec fn lead_ws(s: Seq<char>) -> nat
    decreases s.len(),
{
    if s.len() > 0 && is_ws(s[0]) {
        1 + lead_ws(s.drop_first())
    } else {
        0
    }
}

/// The number of white-space characters that end `s`.
pub open spec fn trail_ws(s: Seq<char>) -> nat
    decreases s.len(),
{
    if s.len() > 0 && is_ws(s.last()) {
        1 + trail_ws(s.drop_last())
    } else {
        0
    }
}

/// `s` without white space at either end.
pub open spec fn trim(s: Seq<char>) -> Seq<char> {
    if lead_ws(s) >= s.len() {
        Seq::empty()
    } else {
        s.subrange(lead_ws(s) as int, s.len() - trail_ws(s))
    }
}

/// Where the octave of a note name starts: the first digit or `-`.
pub open spec fn octave_start(s: Seq<char>) -> nat
    decreases s.len(),
{
    if s.len() == 0 || is_digit(s[0]) || s[0] == '-' {
        0
    } else {
        1 + octave_start(s.drop_first())
    }
}

/// Every character is a decimal digit.
pub open spec fn all_digits(ds: Seq<char>) -> bool {
    forall|i: int| 0 <= i < ds.len() ==> is_digit(#[trigger] ds[i])
}

/// What `str::parse::<i32>` reads: an optional sign, then at least one
/// digit and nothing else, within the range of `i32`.
pub open spec fn std_parse_i32(t: Seq<char>) -> Option<i32> {
    let neg = t.len() > 0 && t[0] == '-';
    let signed = t.len() > 0 && (t[0] == '-' || t[0] == '+');
    let ds = if signed { t.drop_first() } else { t };
    if ds.len() == 0 || !all_digits(ds) {
        None
    } else {
        let v = digits_val(ds, 0, ds.len() as int) as int;
        let x = if neg { -v } else { v };
        if i32::MIN <= x <= i32::MAX {
            Some(x as i32)
        } else {
            None
        }
    }
}

/// The semitone of an upper-case note name within its octave (0 when the
/// name is unknown).
pub open spec fn upper_note_semitone(n: Seq<char>) -> int {
    if n == seq!['C'] {
        0
    } else if n == seq!['C', '#'] || n == seq!['D', 'B'] {
        1
    } else if n == seq!['D'] {
        2
    } else if n == seq!['D', '#'] || n == seq!['E', 'B'] {
        3
    } else if n == seq!['E'] {
        4
    } else if n == seq!['F'] {
        5
    } else if n == seq!['F', '#'] || n == seq!['G', 'B'] {
        6
    } else if n == seq!['G'] {
        7
    } else if n == seq!['G', '#'] || n == seq!['A', 'B'] {
        8
    } else if n == seq!['A'] {
        9
    } else if n == seq!['A', '#'] || n == seq!['B', 'B'] {
        10
    } else if n == seq!['B'] {
        11
    } else {
        0
    }
}

/// The MIDI pitch a root such as `C4` names: trimmed and in upper case
/// (ASCII case alone decides), a note name, then an octave (4 when it does
/// not read as an `i32`).
pub open spec fn root_pitch_value(s: Seq<char>) -> int {
    let u = trim(s).map_values(|c: char| ascii_upper(c));
    let k = octave_start(u) as int;
    let octave: int = match std_parse_i32(u.skip(k)) {
        Some(v) => v as int,
        None => 4,
    };
    (octave + 1) * 12 + upper_note_semitone(u.take(k))
}

proof fn lemma_octave_start(s: Seq<char>)
    ensures
        octave_start(s) <= s.len(),
        forall|i: int| 0 <= i < octave_start(s) ==> !is_digit(#[trigger] s[i]) && s[i] != '-',
        octave_start(s) < s.len() ==> is_digit(s[octave_start(s) as int]) || s[octave_start(s) as int] == '-',
    decreases s.len(),
{
    if !(s.len() == 0 || is_digit(s[0]) || s[0] == '-') {
        lemma_octave_start(s.drop_first());
        assert forall|i: int| 0 <= i < octave_start(s) implies !is_digit(#[trigger] s[i]) && s[i] != '-' by {
            if i > 0 {
                assert(s[i] == s.drop_first()[i - 1]);
            }
        }
    }
}

proof fn lemma_lead_ws(s: Seq<char>)
    ensures
        lead_ws(s) <= s.len(),
        forall|i: int| 0 <= i < lead_ws(s) ==> is_ws(#[trigger] s[i]),
        lead_ws(s) < s.len() ==> !is_ws(s[lead_ws(s) as int]),
    decreases s.len(),
{
    if s.len() > 0 && is_ws(s[0]) {
        lemma_lead_ws(s.drop_first());
        assert forall|i: int| 0 <= i < lead_ws(s) implies is_ws(#[trigger] s[i]) by {
            if i > 0 {
                assert(s[i] == s.drop_first()[i - 1]);
            }
        }
    }
}

proof fn lemma_trail_ws(s: Seq<char>)
    ensures
        trail_ws(s) <= s.len(),
        forall|i: int| s.len() - trail_ws(s) <= i < s.len() ==> is_ws(#[trigger] s[i]),
        trail_ws(s) < s.len() ==> !is_ws(s[s.len() - 1 - trail_ws(s)]),
    decreases s.len(),
{
    if s.len() > 0 && is_ws(s.last()) {
        lemma_trail_ws(s.drop_last());
        assert forall|i: int| s.len() - trail_ws(s) <= i < s.len() implies is_ws(#[trigger] s[i]) by {
            if i < s.len() - 1 {
                assert(s[i] == s.drop_last()[i]);
            }
        }
    }
}

/// Counts the leading white space.
fn count_lead(s: &Vec<char>) -> (r: usize)
    ensures
        r == lead_ws(s@),
{
    let mut i: usize = 0;
    proof {
        lemma_lead_ws(s@);
    }
    while i < s.len() && char_is_ws(s[i])
        invariant
            0 <= i <= s@.len(),
            i <= lead_ws(s@),
            lead_ws(s@) <= s@.len(),
            forall|k: int| 0 <= k < lead_ws(s@) ==> is_ws(#[trigger] s@[k]),
            lead_ws(s@) < s@.len() ==> !is_ws(s@[lead_ws(s@) as int]),
        decreases s.len() - i,
    {
        i += 1;
    }
    i
}

/// Counts the trailing white space.
fn count_trail(s: &Vec<char>) -> (r: usize)
    ensures
        r == trail_ws(s@),
{
    let n = s.len();
    let mut t: usize = 0;
    proof {
        lemma_trail_ws(s@);
    }
    while t < n && char_is_ws(s[n - 1 - t])
        invariant
            0 <= t <= n,
            n == s@.len(),
            t <= trail_ws(s@),
            trail_ws(s@) <= s@.len(),
            forall|i: int| s@.len() - trail_ws(s@) <= i < s@.len() ==> is_ws(#[trigger] s@[i]),
            trail_ws(s@) < s@.len() ==> !is_ws(s@[s@.len() - 1 - trail_ws(s@)]),
        decreases n - t,
    {
        t += 1;
    }
    t
}

/// Reads an `i32` as `str::parse` does.
#[verifier::loop_isolation(false)]
fn parse_i32_chars(t: &Vec<char>, lo: usize) -> (r: Option<i32>)
    requires
        lo <= t@.len(),
    ensures
        r == std_parse_i32(t@.skip(lo as int)),
{
    let ghost ts = t@.skip(lo as int);
    let n = t.len();
    if lo == n {
        return None;
    }
    let neg = t[lo] == '-';
    let signed = t[lo] == '-' || t[lo] == '+';
    let start = if signed {
        lo + 1
    } else {
        lo
    };
    let ghost ds = if signed {
        ts.drop_first()
    } else {
        ts
    };
    proof {
        assert(ds =~= t@.skip(start as int));
    }
    if start == n {
        return None;
    }
    let mut v: u64 = 0;
    let mut i = start;
    let mut big = false;
    while i < n
        invariant
            start <= i <= n,
            n == t@.len(),
            ds == t@.skip(start as int),
            forall|k: int| start <= k < i ==> is_digit(#[trigger] t@[k]),
            !big ==> v == digits_val(ds, 0, (i - start) as int),
            !big ==> v <= 0x8000_0000,
            big ==> digits_val(ds, 0, (i - start) as int) > 0x8000_0000,
        decreases n - i,
    {
        let c = t[i];
        if !('0' <= c && c <= '9') {
            proof {
                assert(ds[i - start] == c);
                assert(!is_digit(ds[i - start]));
                assert(ts[0] == t@[lo as int]);
                let sds = if ts.len() > 0 && (ts[0] == '-' || ts[0] == '+') {
                    ts.drop_first()
                } else {
                    ts
                };
                assert(sds == ds);
                assert(!is_digit(sds[i - start]));
                assert(!all_digits(sds));
            }
            return None;
        }
        proof {
            assert(ds[i - start] == c);
            assert(ds.subrange(0, (i + 1 - start) as int) == ds.subrange(0, (i + 1 - start) as int));
        }
        let d: u64 = (c as u32 - '0' as u32) as u64;
        if !big {
            v = v * 10 + d;
            if v > 0x8000_0000 {
                big = true;
            }
        } else {
            proof {
                let prev = digits_val(ds, 0, (i - start) as int);
                assert(digits_val(ds, 0, (i + 1 - start) as int) == prev * 10 + crate::parser::primitives::digit_val(ds[i - start]));
            }
        }
        i += 1;
    }
    proof {
        assert forall|k: int| 0 <= k < ds.len() implies is_digit(#[trigger] ds[k]) by {
            assert(ds[k] == t@[start + k]);
        }
        assert(ds.len() == n - start);
    }
    if big {
        return None;
    }
    let x: i64 = if neg {
        -(v as i64)
    } else {
        v as i64
    };
    if x < i32::MIN as i64 || x > i32::MAX as i64 {
        None
    } else {
        Some(x as i32)
    }
}

fn is_name(n: &Vec<char>, w: &[char]) -> (r: bool)
    ensures
        r == (n@ == w@),
{
    same_chars(n, w)
}

/// The semitone of an upper-case note name.
fn note_semitone(n: &Vec<char>) -> (r: i32)
    ensures
        r == upper_note_semitone(n@),
{
    let w0 = ['C'];
    assert(w0@ =~= seq!['C']);
    let w1 = ['C', '#'];
    assert(w1@ =~= seq!['C', '#']);
    let w2 = ['D', 'B'];
    assert(w2@ =~= seq!['D', 'B']);
    let w3 = ['D'];
    assert(w3@ =~= seq!['D']);
    let w4 = ['D', '#'];
    assert(w4@ =~= seq!['D', '#']);
    let w5 = ['E', 'B'];
    assert(w5@ =~= seq!['E', 'B']);
    let w6 = ['E'];
    assert(w6@ =~= seq!['E']);
    let w7 = ['F'];
    assert(w7@ =~= seq!['F']);
    let w8 = ['F', '#'];
    assert(w8@ =~= seq!['F', '#']);
    let w9 = ['G', 'B'];
    assert(w9@ =~= seq!['G', 'B']);
    let w10 = ['G'];
    assert(w10@ =~= seq!['G']);
    let w11 = ['G', '#'];
    assert(w11@ =~= seq!['G', '#']);
    let w12 = ['A', 'B'];
    assert(w12@ =~= seq!['A', 'B']);
    let w13 = ['A'];
    assert(w13@ =~= seq!['A']);
    let w14 = ['A', '#'];
    assert(w14@ =~= seq!['A', '#']);
    let w15 = ['B', 'B'];
    assert(w15@ =~= seq!['B', 'B']);
    let w16 = ['B'];
    assert(w16@ =~= seq!['B']);
    if is_name(n, &w0) {
        return 0;
    }
    if is_name(n, &w1) {
        return 1;
    }
    if is_name(n, &w2) {
        return 1;
    }
    if is_name(n, &w3) {
        return 2;
    }
    if is_name(n, &w4) {
        return 3;
    }
    if is_name(n, &w5) {
        return 3;
    }
    if is_name(n, &w6) {
        return 4;
    }
    if is_name(n, &w7) {
        return 5;
    }
    if is_name(n, &w8) {
        return 6;
    }
    if is_name(n, &w9) {
        return 6;
    }
    if is_name(n, &w10) {
        return 7;
    }
    if is_name(n, &w11) {
        return 8;
    }
    if is_name(n, &w12) {
        return 8;
    }
    if is_name(n, &w13) {
        return 9;
    }
    if is_name(n, &w14) {
        return 10;
    }
    if is_name(n, &w15) {
        return 10;
    }
    if is_name(n, &w16) {
        return 11;
    }
    0
}

/// The MIDI pitch a root such as `C4` names, or `None` when it does not
/// fit in an `i32`.
pub fn parse_root_pitch_checked(note_name: &str) -> (r: Option<i32>)
    ensures
        match r {
            Some(v) => v == root_pitch_value(note_name@),
            None => !(i32::MIN <= root_pitch_value(note_name@) <= i32::MAX),
        },
{
    let s = text_chars(note_name);
    let a = count_lead(&s);
    let mut u: Vec<char> = Vec::new();
    let ghost tr = trim(s@);
    if a < s.len() {
        let b = count_trail(&s);
        proof {
            lemma_lead_ws(s@);
            lemma_trail_ws(s@);
            if s@.len() - b <= a {
                assert(!is_ws(s@[a as int]));
                assert(false);
            }
        }
        let mut i = a;
        while i < s.len() - b
            invariant
                a <= i <= s@.len() - b,
                b == trail_ws(s@),
                a == lead_ws(s@),
                a < s@.len() - b,
                u@ == s@.subrange(a as int, i as int).map_values(|c: char| ascii_upper(c)),
            decreases s.len() - b - i,
        {
            let c = upper_char(s[i]);
            proof {
                assert(s@.subrange(a as int, i + 1).map_values(|c: char| ascii_upper(c)) =~= s@.subrange(
                    a as int,
                    i as int,
                ).map_values(|c: char| ascii_upper(c)).push(c));
            }
            u.push(c);
            i += 1;
        }
    } else {
        assert(u@ =~= tr.map_values(|c: char| ascii_upper(c)));
    }
    let ghost uv = trim(s@).map_values(|c: char| ascii_upper(c));
    assert(u@ =~= uv);
    let mut k: usize = 0;
    proof {
        lemma_octave_start(uv);
    }
    while k < u.len() && !(('0' <= u[k] && u[k] <= '9') || u[k] == '-')
        invariant
            0 <= k <= u@.len(),
            u@ == uv,
            k <= octave_start(uv),
            octave_start(uv) <= uv.len(),
            forall|i: int| 0 <= i < octave_start(uv) ==> !is_digit(#[trigger] uv[i]) && uv[i] != '-',
            octave_start(uv) < uv.len() ==> is_digit(uv[octave_start(uv) as int]) || uv[octave_start(uv) as int] == '-',
        decreases u.len() - k,
    {
        k += 1;
    }
    let mut name: Vec<char> = Vec::new();
    let mut j: usize = 0;
    while j < k
        invariant
            0 <= j <= k <= u@.len(),
            name@ == u@.take(j as int),
        decreases k - j,
    {
        name.push(u[j]);
        proof {
            assert(u@.take(j + 1) =~= u@.take(j as int).push(u@[j as int]));
        }
        j += 1;
    }
    let octave: i64 = match parse_i32_chars(&u, k) {
        Some(v) => v as i64,
        None => 4,
    };
    let base = note_semitone(&name) as i64;
    let value: i64 = (octave + 1) * 12 + base;
    if value < i32::MIN as i64 || value > i32::MAX as i64 {
        None
    } else {
        Some(value as i32)
    }
}

/// The MIDI pitch a root such as `C4` names.
pub fn parse_root_pitch(note_name: &str) -> (r: i32)
    requires
        i32::MIN <= root_pitch_value(note_name@) <= i32::MAX,
    ensures
        r == root_pitch_value(note_name@),
{
    match parse_root_pitch_checked(note_name) {
        Some(v) => v,
        None => 0,
    }
}


/// The first position of `x` in `iv`.
pub open spec fn first_index_of(iv: Seq<i32>, x: int) -> Option<nat>
    decreases iv.len(),
{
    if iv.len() == 0 {
        None
    } else if iv[0] == x {
        Some(0)
    } else {
        match first_index_of(iv.drop_first(), x) {
            Some(k) => Some(k + 1),
            None => None,
        }
    }
}

/// The last position whose semitone lies below `x` (0 when none does).
pub open spec fn last_below(iv: Seq<i32>, x: int) -> nat
    decreases iv.len(),
{
    if iv.len() == 0 {
        0
    } else if iv.last() < x {
        (iv.len() - 1) as nat
    } else {
        last_below(iv.drop_last(), x)
    }
}

/// A note as a scale degree and a number of sharps: octaves from the
/// root count whole scales, and a note off the scale takes the nearest
/// degree below it plus sharps.
pub open spec fn degree_parts(midi: int, root: int, iv: Seq<i32>) -> (int, int) {
    let diff = midi - root;
    let oct = diff / 12;
    let pc = diff % 12;
    match first_index_of(iv, pc) {
        Some(k) => (oct * iv.len() + k, 0),
        None => {
            let c = last_below(iv, pc);
            (oct * iv.len() + c, pc - iv[c as int])
        },
    }
}

/// The inputs on which the degree can be written: a scale, a distance and
/// a degree within `i32`, and no flats needed.
pub open spec fn degree_ok(midi: int, root: int, iv: Seq<i32>) -> bool {
    let diff = midi - root;
    &&& 0 < iv.len() <= i32::MAX
    &&& i32::MIN <= diff <= i32::MAX
    &&& i32::MIN <= (diff / 12) * iv.len() <= i32::MAX
    &&& i32::MIN <= degree_parts(midi, root, iv).0 <= i32::MAX
    &&& degree_parts(midi, root, iv).1 >= 0
}

/// The text of a note: its degree, its sharps, and its velocity when
/// velocities are kept (`.v(vel)`).
pub open spec fn degree_text(midi: int, root: int, iv: Seq<i32>, vel: u8, keep_velocity: bool) -> Seq<char> {
    let (d, a) = degree_parts(midi, root, iv);
    let base = int_text(d) + Seq::new(a as nat, |i: int| '#');
    if keep_velocity {
        base + seq!['.', 'v', '('] + nat_text(vel as nat) + seq![')']
    } else {
        base
    }
}

proof fn lemma_first_index_of(iv: Seq<i32>, x: int)
    ensures
        first_index_of(iv, x) matches Some(k) ==> k < iv.len() && iv[k as int] == x && forall|j: int| 0 <= j < k ==> #[trigger] iv[j] != x,
        first_index_of(iv, x) is None ==> forall|j: int| 0 <= j < iv.len() ==> #[trigger] iv[j] != x,
    decreases iv.len(),
{
    if iv.len() > 0 && iv[0] != x {
        lemma_first_index_of(iv.drop_first(), x);
        assert forall|j: int| 1 <= j < iv.len() implies #[trigger] iv[j] == iv.drop_first()[j - 1] by {}
    }
}

proof fn lemma_last_below(iv: Seq<i32>, x: int)
    ensures
        iv.len() > 0 ==> last_below(iv, x) < iv.len(),
        forall|j: int| last_below(iv, x) < j < iv.len() ==> !(#[trigger] iv[j] < x),
        iv.len() > 0 && iv[last_below(iv, x) as int] >= x ==> last_below(iv, x) == 0,
    decreases iv.len(),
{
    if iv.len() > 0 && !(iv.last() < x) {
        lemma_last_below(iv.drop_last(), x);
        assert forall|j: int| last_below(iv, x) < j < iv.len() implies !(#[trigger] iv[j] < x) by {
            if j < iv.len() - 1 {
                assert(iv[j] == iv.drop_last()[j]);
            }
        }
    }
}

/// The octaves from the root counted in scale steps, then the degree and
/// the sharps of a note.
#[verifier::spinoff_prover]
fn degree_numbers(midi_note: i32, root_midi: i32, intervals: &Vec<i32>) -> (r: (i64, i64, i64))
    requires
        0 < intervals@.len() <= i32::MAX,
    ensures
        r.0 == ((midi_note - root_midi) / 12) * intervals@.len(),
        (r.1 as int, r.2 as int) == degree_parts(midi_note as int, root_midi as int, intervals@),
{
    let ghost iv = intervals@;
    let diff: i64 = midi_note as i64 - root_midi as i64;
    // floor division by 12 on a value made non-negative
    let shifted: u64 = (diff + 12 * 0x2_0000_0000) as u64;
    let oct: i64 = (shifted / 12) as i64 - 0x2_0000_0000;
    let pc: i64 = (shifted % 12) as i64;
    proof {
        assert(oct == diff / 12 && pc == diff % 12) by {
            vstd::arithmetic::div_mod::lemma_fundamental_div_mod(shifted as int, 12);
            vstd::arithmetic::div_mod::lemma_mod_bound(shifted as int, 12);
            vstd::arithmetic::div_mod::lemma_fundamental_div_mod_converse(
                diff as int,
                12,
                (shifted as int) / 12 - 0x2_0000_0000,
                (shifted as int) % 12,
            );
        }
        lemma_first_index_of(iv, pc as int);
        lemma_last_below(iv, pc as int);
    }
    let n = intervals.len();
    assert(-0x2000_0000 <= oct <= 0x2000_0000);
    assert(-0x2000_0000 * 0x8000_0000 <= oct * n <= 0x2000_0000 * 0x8000_0000) by (nonlinear_arith)
        requires
            -0x2000_0000 <= oct <= 0x2000_0000,
            0 < n <= 0x8000_0000,
    ;
    let scaled: i64 = oct * (n as i64);
    let mut idx: usize = 0;
    while idx < n && intervals[idx] as i64 != pc
        invariant
            0 <= idx <= n,
            n == iv.len(),
            iv == intervals@,
            forall|j: int| 0 <= j < idx ==> #[trigger] iv[j] != pc,
        decreases n - idx,
    {
        idx += 1;
    }
    let (deg, acc): (i64, i64) = if idx < n {
        proof {
            if let Some(k) = first_index_of(iv, pc as int) {
                assert(k == idx);
            }
        }
        (scaled + idx as i64, 0)
    } else {
        let mut closest: usize = 0;
        let mut i: usize = 0;
        while i < n
            invariant
                0 <= i <= n,
                n == iv.len(),
                iv == intervals@,
                n > 0,
                closest < n,
                closest == last_below(iv.take(i as int), pc as int) || (i == 0 && closest == 0),
            decreases n - i,
        {
            proof {
                assert(iv.take(i + 1).drop_last() =~= iv.take(i as int));
                assert(iv.take(i + 1).last() == iv[i as int]);
                assert(iv.take(i + 1).len() == i + 1);
                if iv[i as int] < pc {
                    assert(last_below(iv.take(i + 1), pc as int) == i);
                } else {
                    assert(last_below(iv.take(i + 1), pc as int) == last_below(iv.take(i as int), pc as int));
                    if i == 0 {
                        assert(last_below(iv.take(0), pc as int) == 0);
                    }
                }
            }
            if (intervals[i] as i64) < pc {
                closest = i;
            }
            i += 1;
        }
        proof {
            assert(iv.take(n as int) =~= iv);
        }
        (scaled + closest as i64, pc - intervals[closest] as i64)
    };
    (scaled, deg, acc)
}

/// Writes a note as a scale degree of the import's scale.
pub fn format_degree(midi_note: i32, root_midi: i32, intervals: &Vec<i32>, vel: u8, preserve_velocity: bool) -> (r: String)
    requires
        degree_ok(midi_note as int, root_midi as int, intervals@),
    ensures
        r@ == degree_text(midi_note as int, root_midi as int, intervals@, vel, preserve_velocity),
{
    let (_, deg, acc) = degree_numbers(midi_note, root_midi, intervals);
    let mut out: Vec<char> = Vec::new();
    push_int(&mut out, deg);
    let mut k: i64 = 0;
    let ghost before = out@;
    while k < acc
        invariant
            0 <= k <= acc,
            out@ == before + Seq::new(k as nat, |i: int| '#'),
        decreases acc - k,
    {
        out.push('#');
        proof {
            assert(Seq::new((k + 1) as nat, |i: int| '#') =~= Seq::new(k as nat, |i: int| '#').push('#'));
        }
        k += 1;
    }
    if preserve_velocity {
        out.push('.');
        out.push('v');
        out.push('(');
        push_nat(&mut out, vel as u64);
        out.push(')');
    }
    proof {
        assert(out@ =~= degree_text(midi_note as int, root_midi as int, intervals@, vel, preserve_velocity));
    }
    chars_to_string(&out)
}

/// Writes a note as a scale degree, or `None` on the inputs on which no
/// degree can be written (see `degree_ok`).
pub fn format_degree_checked(midi_note: i32, root_midi: i32, intervals: &Vec<i32>, vel: u8, preserve_velocity: bool) -> (r: Option<String>)
    ensures
        match r {
            Some(t) => degree_ok(midi_note as int, root_midi as int, intervals@)
                && t@ == degree_text(midi_note as int, root_midi as int, intervals@, vel, preserve_velocity),
            None => !degree_ok(midi_note as int, root_midi as int, intervals@),
        },
{
    if intervals.len() == 0 || intervals.len() > 0x7fff_ffff {
        return None;
    }
    let diff: i64 = midi_note as i64 - root_midi as i64;
    if diff < i32::MIN as i64 || diff > i32::MAX as i64 {
        return None;
    }
    let (scaled, deg, acc) = degree_numbers(midi_note, root_midi, intervals);
    if scaled < i32::MIN as i64 || scaled > i32::MAX as i64 || deg < i32::MIN as i64 || deg > i32::MAX as i64 || acc < 0 {
        return None;
    }
    Some(format_degree(midi_note, root_midi, intervals, vel, preserve_velocity))
}

/// The semitones of a scale start at the root, rise strictly, and stay
/// within an octave.
pub open spec fn rising_from_root(iv: Seq<int>) -> bool {
    &&& iv.len() > 0
    &&& iv[0] == 0
    &&& forall|i: int| 0 <= i < iv.len() - 1 ==> #[trigger] iv[i] < iv[i + 1]
    &&& forall|i: int| 0 <= i < iv.len() ==> 0 <= #[trigger] iv[i] < 12
}

proof fn lemma_lower_names(k: int)
    requires
        0 <= k < 10,
    ensures
        crate::parser::directives::scale_words()[k].map_values(|c: char| ascii_lower(c))
            == crate::parser::directives::scale_words()[k],
{
    let w = crate::parser::directives::scale_words()[k];
    assert(w.map_values(|c: char| ascii_lower(c)) =~= w);
}

proof fn lemma_lookup_0()
    ensures
        scale_lookup(crate::parser::directives::scale_words()[0], 0) == major_semitones(),
{
    let w = crate::parser::directives::scale_words()[0];
    reveal_with_fuel(scale_lookup, 10);
    let t = import_scale_table();
    assert(t[0].0[1] != w[1]);
    assert(t[0].0 != w);
    assert(t[1].0.len() != w.len());
    assert(t[1].0 != w);
    assert(t[2].0.len() != w.len());
    assert(t[2].0 != w);
    assert(t[3].0.len() != w.len());
    assert(t[3].0 != w);
    assert(t[4].0.len() != w.len());
    assert(t[4].0 != w);
    assert(t[5].0.len() != w.len());
    assert(t[5].0 != w);
    assert(t[6].0.len() != w.len());
    assert(t[6].0 != w);
    assert(t[7].0.len() != w.len());
    assert(t[7].0 != w);
    assert(t[8].0.len() != w.len());
    assert(t[8].0 != w);
}

proof fn lemma_lookup_1()
    ensures
        scale_lookup(crate::parser::directives::scale_words()[1], 0) == import_scale_table()[1].1,
{
    let w = crate::parser::directives::scale_words()[1];
    reveal_with_fuel(scale_lookup, 10);
    let t = import_scale_table();
    assert(t[0].0.len() != w.len());
    assert(t[0].0 != w);
}

proof fn lemma_lookup_2()
    ensures
        scale_lookup(crate::parser::directives::scale_words()[2], 0) == import_scale_table()[0].1,
{
    let w = crate::parser::directives::scale_words()[2];
    reveal_with_fuel(scale_lookup, 10);
    let t = import_scale_table();

}

proof fn lemma_lookup_3()
    ensures
        scale_lookup(crate::parser::directives::scale_words()[3], 0) == import_scale_table()[2].1,
{
    let w = crate::parser::directives::scale_words()[3];
    reveal_with_fuel(scale_lookup, 10);
    let t = import_scale_table();
    assert(t[0].0.len() != w.len());
    assert(t[0].0 != w);
    assert(t[1].0.len() != w.len());
    assert(t[1].0 != w);
}

proof fn lemma_lookup_4()
    ensures
        scale_lookup(crate::parser::directives::scale_words()[4], 0) == import_scale_table()[3].1,
{
    let w = crate::parser::directives::scale_words()[4];
    reveal_with_fuel(scale_lookup, 10);
    let t = import_scale_table();
    assert(t[0].0.len() != w.len());
    assert(t[0].0 != w);
    assert(t[1].0.len() != w.len());
    assert(t[1].0 != w);
    assert(t[2].0.len() != w.len());
    assert(t[2].0 != w);
}

proof fn lemma_lookup_5()
    ensures
        scale_lookup(crate::parser::directives::scale_words()[5], 0) == import_scale_table()[4].1,
{
    let w = crate::parser::directives::scale_words()[5];
    reveal_with_fuel(scale_lookup, 10);
    let t = import_scale_table();
    assert(t[0].0.len() != w.len());
    assert(t[0].0 != w);
    assert(t[1].0.len() != w.len());
    assert(t[1].0 != w);
    assert(t[2].0[0] != w[0]);
    assert(t[2].0 != w);
    assert(t[3].0.len() != w.len());
    assert(t[3].0 != w);
}

proof fn lemma_lookup_6()
    ensures
        scale_lookup(crate::parser::directives::scale_words()[6], 0) == import_scale_table()[5].1,
{
    let w = crate::parser::directives::scale_words()[6];
    reveal_with_fuel(scale_lookup, 10);
    let t = import_scale_table();
    assert(t[0].0.len() != w.len());
    assert(t[0].0 != w);
    assert(t[1].0.len() != w.len());
    assert(t[1].0 != w);
    assert(t[2].0.len() != w.len());
    assert(t[2].0 != w);
    assert(t[3].0.len() != w.len());
    assert(t[3].0 != w);
    assert(t[4].0.len() != w.len());
    assert(t[4].0 != w);
}

proof fn lemma_lookup_7()
    ensures
        scale_lookup(crate::parser::directives::scale_words()[7], 0) == import_scale_table()[6].1,
{
    let w = crate::parser::directives::scale_words()[7];
    reveal_with_fuel(scale_lookup, 10);
    let t = import_scale_table();
    assert(t[0].0.len() != w.len());
    assert(t[0].0 != w);
    assert(t[1].0.len() != w.len());
    assert(t[1].0 != w);
    assert(t[2].0.len() != w.len());
    assert(t[2].0 != w);
    assert(t[3].0.len() != w.len());
    assert(t[3].0 != w);
    assert(t[4].0.len() != w.len());
    assert(t[4].0 != w);
    assert(t[5].0.len() != w.len());
    assert(t[5].0 != w);
}

proof fn lemma_lookup_8()
    ensures
        scale_lookup(crate::parser::directives::scale_words()[8], 0) == import_scale_table()[7].1,
{
    let w = crate::parser::directives::scale_words()[8];
    reveal_with_fuel(scale_lookup, 10);
    let t = import_scale_table();
    assert(t[0].0.len() != w.len());
    assert(t[0].0 != w);
    assert(t[1].0.len() != w.len());
    assert(t[1].0 != w);
    assert(t[2].0.len() != w.len());
    assert(t[2].0 != w);
    assert(t[3].0.len() != w.len());
    assert(t[3].0 != w);
    assert(t[4].0.len() != w.len());
    assert(t[4].0 != w);
    assert(t[5].0[0] != w[0]);
    assert(t[5].0 != w);
    assert(t[6].0.len() != w.len());
    assert(t[6].0 != w);
}

proof fn lemma_lookup_9()
    ensures
        scale_lookup(crate::parser::directives::scale_words()[9], 0) == import_scale_table()[8].1,
{
    let w = crate::parser::directives::scale_words()[9];
    reveal_with_fuel(scale_lookup, 10);
    let t = import_scale_table();
    assert(t[0].0.len() != w.len());
    assert(t[0].0 != w);
    assert(t[1].0.len() != w.len());
    assert(t[1].0 != w);
    assert(t[2].0.len() != w.len());
    assert(t[2].0 != w);
    assert(t[3].0.len() != w.len());
    assert(t[3].0 != w);
    assert(t[4].0.len() != w.len());
    assert(t[4].0 != w);
    assert(t[5].0.len() != w.len());
    assert(t[5].0 != w);
    assert(t[6].0.len() != w.len());
    assert(t[6].0 != w);
    assert(t[7].0.len() != w.len());
    assert(t[7].0 != w);
}

/// An import's scale table and the `#SCALE` directive's table agree on
/// every name the directive knows, and every one of these scales starts at
/// the root, rises strictly, and stays within an octave.
pub proof fn law_scale_tables_agree(k: int)
    requires
        0 <= k < 10,
    ensures
        scale_semitones(crate::parser::directives::scale_words()[k]).map_values(|x: i32| x as int)
            == crate::parser::directives::scale_intervals(k).map_values(|x: u8| x as int),
        rising_from_root(crate::parser::directives::scale_intervals(k).map_values(|x: u8| x as int)),
{
    lemma_lower_names(k);
    let iv = crate::parser::directives::scale_intervals(k).map_values(|x: u8| x as int);
    if k == 0 {
        lemma_lookup_0();
        assert(iv.len() == 7);
        assert(scale_semitones(crate::parser::directives::scale_words()[0]).map_values(|x: i32| x as int) =~= iv);
        assert forall|i: int| 0 <= i < iv.len() - 1 implies #[trigger] iv[i] < iv[i + 1] by {
            if i == 0 {} else if i == 1 {} else if i == 2 {} else if i == 3 {} else if i == 4 {} else if i == 5 {}
        }
        assert forall|i: int| 0 <= i < iv.len() implies 0 <= #[trigger] iv[i] < 12 by {
            if i == 0 {} else if i == 1 {} else if i == 2 {} else if i == 3 {} else if i == 4 {} else if i == 5 {} else if i == 6 {}
        }
    } else if k == 1 {
        lemma_lookup_1();
        assert(iv.len() == 5);
        assert(scale_semitones(crate::parser::directives::scale_words()[1]).map_values(|x: i32| x as int) =~= iv);
        assert forall|i: int| 0 <= i < iv.len() - 1 implies #[trigger] iv[i] < iv[i + 1] by {
            if i == 0 {} else if i == 1 {} else if i == 2 {} else if i == 3 {}
        }
        assert forall|i: int| 0 <= i < iv.len() implies 0 <= #[trigger] iv[i] < 12 by {
            if i == 0 {} else if i == 1 {} else if i == 2 {} else if i == 3 {} else if i == 4 {}
        }
    } else if k == 2 {
        lemma_lookup_2();
        assert(iv.len() == 7);
        assert(scale_semitones(crate::parser::directives::scale_words()[2]).map_values(|x: i32| x as int) =~= iv);
        assert forall|i: int| 0 <= i < iv.len() - 1 implies #[trigger] iv[i] < iv[i + 1] by {
            if i == 0 {} else if i == 1 {} else if i == 2 {} else if i == 3 {} else if i == 4 {} else if i == 5 {}
        }
        assert forall|i: int| 0 <= i < iv.len() implies 0 <= #[trigger] iv[i] < 12 by {
            if i == 0 {} else if i == 1 {} else if i == 2 {} else if i == 3 {} else if i == 4 {} else if i == 5 {} else if i == 6 {}
        }
    } else if k == 3 {
        lemma_lookup_3();
        assert(iv.len() == 7);
        assert(scale_semitones(crate::parser::directives::scale_words()[3]).map_values(|x: i32| x as int) =~= iv);
        assert forall|i: int| 0 <= i < iv.len() - 1 implies #[trigger] iv[i] < iv[i + 1] by {
            if i == 0 {} else if i == 1 {} else if i == 2 {} else if i == 3 {} else if i == 4 {} else if i == 5 {}
        }
        assert forall|i: int| 0 <= i < iv.len() implies 0 <= #[trigger] iv[i] < 12 by {
            if i == 0 {} else if i == 1 {} else if i == 2 {} else if i == 3 {} else if i == 4 {} else if i == 5 {} else if i == 6 {}
        }
    } else if k == 4 {
        lemma_lookup_4();
        assert(iv.len() == 7);
        assert(scale_semitones(crate::parser::directives::scale_words()[4]).map_values(|x: i32| x as int) =~= iv);
        assert forall|i: int| 0 <= i < iv.len() - 1 implies #[trigger] iv[i] < iv[i + 1] by {
            if i == 0 {} else if i == 1 {} else if i == 2 {} else if i == 3 {} else if i == 4 {} else if i == 5 {}
        }
        assert forall|i: int| 0 <= i < iv.len() implies 0 <= #[trigger] iv[i] < 12 by {
            if i == 0 {} else if i == 1 {} else if i == 2 {} else if i == 3 {} else if i == 4 {} else if i == 5 {} else if i == 6 {}
        }
    } else if k == 5 {
        lemma_lookup_5();
        assert(iv.len() == 7);
        assert(scale_semitones(crate::parser::directives::scale_words()[5]).map_values(|x: i32| x as int) =~= iv);
        assert forall|i: int| 0 <= i < iv.len() - 1 implies #[trigger] iv[i] < iv[i + 1] by {
            if i == 0 {} else if i == 1 {} else if i == 2 {} else if i == 3 {} else if i == 4 {} else if i == 5 {}
        }
        assert forall|i: int| 0 <= i < iv.len() implies 0 <= #[trigger] iv[i] < 12 by {
            if i == 0 {} else if i == 1 {} else if i == 2 {} else if i == 3 {} else if i == 4 {} else if i == 5 {} else if i == 6 {}
        }
    } else if k == 6 {
        lemma_lookup_6();
        assert(iv.len() == 7);
        assert(scale_semitones(crate::parser::directives::scale_words()[6]).map_values(|x: i32| x as int) =~= iv);
        assert forall|i: int| 0 <= i < iv.len() - 1 implies #[trigger] iv[i] < iv[i + 1] by {
            if i == 0 {} else if i == 1 {} else if i == 2 {} else if i == 3 {} else if i == 4 {} else if i == 5 {}
        }
        assert forall|i: int| 0 <= i < iv.len() implies 0 <= #[trigger] iv[i] < 12 by {
            if i == 0 {} else if i == 1 {} else if i == 2 {} else if i == 3 {} else if i == 4 {} else if i == 5 {} else if i == 6 {}
        }
    } else if k == 7 {
        lemma_lookup_7();
        assert(iv.len() == 7);
        assert(scale_semitones(crate::parser::directives::scale_words()[7]).map_values(|x: i32| x as int) =~= iv);
        assert forall|i: int| 0 <= i < iv.len() - 1 implies #[trigger] iv[i] < iv[i + 1] by {
            if i == 0 {} else if i == 1 {} else if i == 2 {} else if i == 3 {} else if i == 4 {} else if i == 5 {}
        }
        assert forall|i: int| 0 <= i < iv.len() implies 0 <= #[trigger] iv[i] < 12 by {
            if i == 0 {} else if i == 1 {} else if i == 2 {} else if i == 3 {} else if i == 4 {} else if i == 5 {} else if i == 6 {}
        }
    } else if k == 8 {
        lemma_lookup_8();
        assert(iv.len() == 5);
        assert(scale_semitones(crate::parser::directives::scale_words()[8]).map_values(|x: i32| x as int) =~= iv);
        assert forall|i: int| 0 <= i < iv.len() - 1 implies #[trigger] iv[i] < iv[i + 1] by {
            if i == 0 {} else if i == 1 {} else if i == 2 {} else if i == 3 {}
        }
        assert forall|i: int| 0 <= i < iv.len() implies 0 <= #[trigger] iv[i] < 12 by {
            if i == 0 {} else if i == 1 {} else if i == 2 {} else if i == 3 {} else if i == 4 {}
        }
    } else if k == 9 {
        lemma_lookup_9();
        assert(iv.len() == 12);
        assert(scale_semitones(crate::parser::directives::scale_words()[9]).map_values(|x: i32| x as int) =~= iv);
        assert forall|i: int| 0 <= i < iv.len() - 1 implies #[trigger] iv[i] < iv[i + 1] by {
            if i == 0 {} else if i == 1 {} else if i == 2 {} else if i == 3 {} else if i == 4 {} else if i == 5 {} else if i == 6 {} else if i == 7 {} else if i == 8 {} else if i == 9 {} else if i == 10 {}
        }
        assert forall|i: int| 0 <= i < iv.len() implies 0 <= #[trigger] iv[i] < 12 by {
            if i == 0 {} else if i == 1 {} else if i == 2 {} else if i == 3 {} else if i == 4 {} else if i == 5 {} else if i == 6 {} else if i == 7 {} else if i == 8 {} else if i == 9 {} else if i == 10 {} else if i == 11 {}
        }
    }
}

proof fn lemma_rising_at_least_index(iv: Seq<u8>, i: int)
    requires
        crate::math::rising_within_octave(iv),
        0 <= i < iv.len(),
    ensures
        iv[i] >= i,
    decreases i,
{
    if i > 0 {
        lemma_rising_at_least_index(iv, i - 1);
        assert(iv[i - 1] < iv[i]);
    }
}

/// Law: a note on the import's scale is written as a degree with no
/// sharps, and that degree resolves back to the same MIDI note against the
/// same root and scale.
pub proof fn law_degree_round_trip(m: int, root: u8, sc: crate::ast::SScale)
    requires
        root == sc.root_pitch,
        crate::math::rising_within_octave(sc.intervals),
        0 <= m <= 127,
        sc.intervals.contains(((m - root) % 12) as u8),
    ensures
        ({
            let iv = sc.intervals.map_values(|x: u8| x as i32);
            let (d, acc) = degree_parts(m, root as int, iv);
            &&& acc == 0
            &&& i32::MIN <= d <= i32::MAX
            &&& crate::math::spec_resolve_pitch(crate::ast::Pitch::Numeric(d as i32, 0), Some(sc), 0) == m
        }),
{
    let iv = sc.intervals.map_values(|x: u8| x as i32);
    let n = iv.len() as int;
    let diff = m - root;
    let oct = diff / 12;
    let pc = diff % 12;
    vstd::arithmetic::div_mod::lemma_fundamental_div_mod(diff, 12);
    lemma_first_index_of(iv, pc);
    let j = choose|j: int| 0 <= j < sc.intervals.len() && sc.intervals[j] == (pc as u8);
    assert(iv[j] == pc);
    let k = first_index_of(iv, pc).unwrap() as int;
    assert(iv[k] == pc);
    assert(sc.intervals[k] == pc);
    let d = oct * n + k;
    lemma_rising_at_least_index(sc.intervals, n - 1);
    assert(n <= 12);
    assert(-22 <= oct <= 11);
    assert(-22 * n <= oct * n <= 11 * n) by (nonlinear_arith)
        requires
            -22 <= oct <= 11,
            n > 0,
    ;
    assert(degree_parts(m, root as int, iv) == (d, 0int));
    assert(i32::MIN <= d <= i32::MAX);
    vstd::arithmetic::div_mod::lemma_fundamental_div_mod_converse(d, n, oct, k);
    assert(d / n == oct && d % n == k);
    assert((d as i32) as int == d);
    assert(root + oct * 12 + sc.intervals[k] == m);
    assert(crate::math::spec_resolve_pitch(crate::ast::Pitch::Numeric(d as i32, 0), Some(sc), 0)
        == crate::math::clamp_midi(sc.root_pitch + oct * 12 + sc.intervals[k] + 0 + 0));
}

// ---------------------------------------------------------------------
// Roots written as note names
// ---------------------------------------------------------------------

/// A run of decimal digits as `pitch_val` reads an octave: at least one
/// digit, and no leading zero before further digits.
pub open spec fn octave_digits(ds: Seq<char>) -> bool {
    &&& ds.len() > 0
    &&& forall|i: int| 0 <= i < ds.len() ==> is_digit(#[trigger] ds[i])
    &&& (ds[0] != '0' || ds.len() == 1)
}

proof fn lemma_digits_run_to_end(s: Seq<char>, pos: usize)
    requires
        pos <= s.len() <= usize::MAX,
        forall|i: int| pos <= i < s.len() ==> is_digit(#[trigger] s[i]),
    ensures
        crate::parser::primitives::spec_digits_end(s, pos) == s.len(),
    decreases s.len() - pos,
{
    if pos < s.len() {
        lemma_digits_run_to_end(s, (pos + 1) as usize);
    }
}

proof fn lemma_digits_val_shift(pre: Seq<char>, ds: Seq<char>, j: int)
    requires
        0 <= j <= ds.len(),
    ensures
        digits_val(pre + ds, pre.len() as int, pre.len() + j) == digits_val(ds, 0, j),
    decreases j,
{
    if j > 0 {
        lemma_digits_val_shift(pre, ds, j - 1);
        assert((pre + ds)[pre.len() + j - 1] == ds[j - 1]);
    }
}

proof fn lemma_octave_start_after(n: Seq<char>, ds: Seq<char>)
    requires
        forall|i: int| 0 <= i < n.len() ==> !is_digit(#[trigger] n[i]) && n[i] != '-',
        ds.len() == 0 || is_digit(ds[0]),
    ensures
        octave_start(n + ds) == n.len(),
    decreases n.len(),
{
    if n.len() > 0 {
        assert((n + ds).drop_first() =~= n.drop_first() + ds);
        lemma_octave_start_after(n.drop_first(), ds);
    } else {
        assert(n + ds =~= ds);
    }
}

proof fn lemma_digits_grow(s: Seq<char>, j: int)
    requires
        2 <= j,
    ensures
        digits_val(s, 0, j) >= digits_val(s, 0, 1) * 10,
    decreases j,
{
    if j > 2 {
        lemma_digits_grow(s, j - 1);
    }
}

/// Each note name, put in upper case, names its own semitone.
proof fn lemma_upper_semitone(i: int)
    requires
        0 <= i < crate::parser::primitives::note_names().len(),
    ensures
        upper_note_semitone(crate::parser::primitives::note_names()[i].0.map_values(|c: char| ascii_upper(c)))
            == crate::parser::primitives::note_names()[i].1,
{
    let un = crate::parser::primitives::note_names()[i].0.map_values(|c: char| ascii_upper(c));
    if i == 0 {
        assert(un =~= seq!['C', '#']);
        assert(upper_note_semitone(un) == 1);
    } else if i == 1 {
        assert(un =~= seq!['D', 'B']);
        assert(upper_note_semitone(un) == 1);
    } else if i == 2 {
        assert(un =~= seq!['D', '#']);
        assert(upper_note_semitone(un) == 3);
    } else if i == 3 {
        assert(un =~= seq!['E', 'B']);
        assert(upper_note_semitone(un) == 3);
    } else if i == 4 {
        assert(un =~= seq!['F', '#']);
        assert(upper_note_semitone(un) == 6);
    } else if i == 5 {
        assert(un =~= seq!['G', 'B']);
        assert(upper_note_semitone(un) == 6);
    } else if i == 6 {
        assert(un =~= seq!['G', '#']);
        assert(upper_note_semitone(un) == 8);
    } else if i == 7 {
        assert(un =~= seq!['A', 'B']);
        assert(upper_note_semitone(un) == 8);
    } else if i == 8 {
        assert(un =~= seq!['A', '#']);
        assert(upper_note_semitone(un) == 10);
    } else if i == 9 {
        assert(un =~= seq!['B', 'B']);
        assert(upper_note_semitone(un) == 10);
    } else if i == 10 {
        assert(un =~= seq!['C']);
        assert(upper_note_semitone(un) == 0);
    } else if i == 11 {
        assert(un =~= seq!['D']);
        assert(un != seq!['C']) by { assert(un[0] != seq!['C'][0]); }
        assert(upper_note_semitone(un) == 2);
    } else if i == 12 {
        assert(un =~= seq!['E']);
        assert(un != seq!['C']) by { assert(un[0] != seq!['C'][0]); }
        assert(un != seq!['D']) by { assert(un[0] != seq!['D'][0]); }
        assert(upper_note_semitone(un) == 4);
    } else if i == 13 {
        assert(un =~= seq!['F']);
        assert(un != seq!['C']) by { assert(un[0] != seq!['C'][0]); }
        assert(un != seq!['D']) by { assert(un[0] != seq!['D'][0]); }
        assert(un != seq!['E']) by { assert(un[0] != seq!['E'][0]); }
        assert(upper_note_semitone(un) == 5);
    } else if i == 14 {
        assert(un =~= seq!['G']);
        assert(un != seq!['C']) by { assert(un[0] != seq!['C'][0]); }
        assert(un != seq!['D']) by { assert(un[0] != seq!['D'][0]); }
        assert(un != seq!['E']) by { assert(un[0] != seq!['E'][0]); }
        assert(un != seq!['F']) by { assert(un[0] != seq!['F'][0]); }
        assert(upper_note_semitone(un) == 7);
    } else if i == 15 {
        assert(un =~= seq!['A']);
        assert(un != seq!['C']) by { assert(un[0] != seq!['C'][0]); }
        assert(un != seq!['D']) by { assert(un[0] != seq!['D'][0]); }
        assert(un != seq!['E']) by { assert(un[0] != seq!['E'][0]); }
        assert(un != seq!['F']) by { assert(un[0] != seq!['F'][0]); }
        assert(un != seq!['G']) by { assert(un[0] != seq!['G'][0]); }
        assert(upper_note_semitone(un) == 9);
    } else if i == 16 {
        assert(un =~= seq!['B']);
        assert(un != seq!['C']) by { assert(un[0] != seq!['C'][0]); }
        assert(un != seq!['D']) by { assert(un[0] != seq!['D'][0]); }
        assert(un != seq!['E']) by { assert(un[0] != seq!['E'][0]); }
        assert(un != seq!['F']) by { assert(un[0] != seq!['F'][0]); }
        assert(un != seq!['G']) by { assert(un[0] != seq!['G'][0]); }
        assert(un != seq!['A']) by { assert(un[0] != seq!['A'][0]); }
        assert(upper_note_semitone(un) == 11);
    }
}

/// What a root written as a note name with octave digits reads as.
proof fn lemma_root_value(i: int, ds: Seq<char>)
    requires
        0 <= i < crate::parser::primitives::note_names().len(),
        ds.len() == 0 || octave_digits(ds),
        ds.len() > 0 ==> digits_val(ds, 0, ds.len() as int) <= i32::MAX,
    ensures
        root_pitch_value(crate::parser::primitives::note_names()[i].0 + ds)
            == (if ds.len() == 0 { 4 } else { digits_val(ds, 0, ds.len() as int) as int } + 1) * 12
            + crate::parser::primitives::note_names()[i].1,
{
    let n = crate::parser::primitives::note_names()[i].0;
    let s = n + ds;
    assert(n.len() == 1 || n.len() == 2);
    assert(!is_ws(s[0]));
    assert(!is_ws(s.last()));
    assert(lead_ws(s) == 0);
    assert(trail_ws(s) == 0);
    assert(trim(s) =~= s);
    let u = s.map_values(|c: char| ascii_upper(c));
    let un = n.map_values(|c: char| ascii_upper(c));
    assert(u =~= un + ds);
    assert forall|k: int| 0 <= k < un.len() implies !is_digit(#[trigger] un[k]) && un[k] != '-' by {}
    lemma_octave_start_after(un, ds);
    assert(u.skip(n.len() as int) =~= ds);
    assert(u.take(n.len() as int) =~= un);
    if ds.len() > 0 {
        assert(std_parse_i32(ds) == Some(digits_val(ds, 0, ds.len() as int) as i32));
    } else {
        assert(std_parse_i32(ds) is None);
    }
    lemma_upper_semitone(i);
}

proof fn lemma_name_found(i: int, ds: Seq<char>)
    requires
        0 <= i < crate::parser::primitives::note_names().len(),
        octave_digits(ds),
    ensures
        crate::parser::primitives::spec_note_name_from(crate::parser::primitives::note_names()[i].0 + ds, 0, 0)
            == Some((crate::parser::primitives::note_names()[i].1, crate::parser::primitives::note_names()[i].0.len() as usize)),
{
    let t = crate::parser::primitives::note_names();
    let s = t[i].0 + ds;
    reveal_with_fuel(crate::parser::primitives::spec_note_name_from, 18);
    assert(s.subrange(0, t[i].0.len() as int) =~= t[i].0);
    assert(is_digit(s[t[i].0.len() as int]));
    if i == 0 {

    } else if i == 1 {
        assert(s.subrange(0, t[0].0.len() as int)[0] != t[0].0[0]);
    } else if i == 2 {
        assert(s.subrange(0, t[0].0.len() as int)[0] != t[0].0[0]);
        assert(s.subrange(0, t[1].0.len() as int)[1] != t[1].0[1]);
    } else if i == 3 {
        assert(s.subrange(0, t[0].0.len() as int)[0] != t[0].0[0]);
        assert(s.subrange(0, t[1].0.len() as int)[0] != t[1].0[0]);
        assert(s.subrange(0, t[2].0.len() as int)[0] != t[2].0[0]);
    } else if i == 4 {
        assert(s.subrange(0, t[0].0.len() as int)[0] != t[0].0[0]);
        assert(s.subrange(0, t[1].0.len() as int)[0] != t[1].0[0]);
        assert(s.subrange(0, t[2].0.len() as int)[0] != t[2].0[0]);
        assert(s.subrange(0, t[3].0.len() as int)[0] != t[3].0[0]);
    } else if i == 5 {
        assert(s.subrange(0, t[0].0.len() as int)[0] != t[0].0[0]);
        assert(s.subrange(0, t[1].0.len() as int)[0] != t[1].0[0]);
        assert(s.subrange(0, t[2].0.len() as int)[0] != t[2].0[0]);
        assert(s.subrange(0, t[3].0.len() as int)[0] != t[3].0[0]);
        assert(s.subrange(0, t[4].0.len() as int)[0] != t[4].0[0]);
    } else if i == 6 {
        assert(s.subrange(0, t[0].0.len() as int)[0] != t[0].0[0]);
        assert(s.subrange(0, t[1].0.len() as int)[0] != t[1].0[0]);
        assert(s.subrange(0, t[2].0.len() as int)[0] != t[2].0[0]);
        assert(s.subrange(0, t[3].0.len() as int)[0] != t[3].0[0]);
        assert(s.subrange(0, t[4].0.len() as int)[0] != t[4].0[0]);
        assert(s.subrange(0, t[5].0.len() as int)[1] != t[5].0[1]);
    } else if i == 7 {
        assert(s.subrange(0, t[0].0.len() as int)[0] != t[0].0[0]);
        assert(s.subrange(0, t[1].0.len() as int)[0] != t[1].0[0]);
        assert(s.subrange(0, t[2].0.len() as int)[0] != t[2].0[0]);
        assert(s.subrange(0, t[3].0.len() as int)[0] != t[3].0[0]);
        assert(s.subrange(0, t[4].0.len() as int)[0] != t[4].0[0]);
        assert(s.subrange(0, t[5].0.len() as int)[0] != t[5].0[0]);
        assert(s.subrange(0, t[6].0.len() as int)[0] != t[6].0[0]);
    } else if i == 8 {
        assert(s.subrange(0, t[0].0.len() as int)[0] != t[0].0[0]);
        assert(s.subrange(0, t[1].0.len() as int)[0] != t[1].0[0]);
        assert(s.subrange(0, t[2].0.len() as int)[0] != t[2].0[0]);
        assert(s.subrange(0, t[3].0.len() as int)[0] != t[3].0[0]);
        assert(s.subrange(0, t[4].0.len() as int)[0] != t[4].0[0]);
        assert(s.subrange(0, t[5].0.len() as int)[0] != t[5].0[0]);
        assert(s.subrange(0, t[6].0.len() as int)[0] != t[6].0[0]);
        assert(s.subrange(0, t[7].0.len() as int)[1] != t[7].0[1]);
    } else if i == 9 {
        assert(s.subrange(0, t[0].0.len() as int)[0] != t[0].0[0]);
        assert(s.subrange(0, t[1].0.len() as int)[0] != t[1].0[0]);
        assert(s.subrange(0, t[2].0.len() as int)[0] != t[2].0[0]);
        assert(s.subrange(0, t[3].0.len() as int)[0] != t[3].0[0]);
        assert(s.subrange(0, t[4].0.len() as int)[0] != t[4].0[0]);
        assert(s.subrange(0, t[5].0.len() as int)[0] != t[5].0[0]);
        assert(s.subrange(0, t[6].0.len() as int)[0] != t[6].0[0]);
        assert(s.subrange(0, t[7].0.len() as int)[0] != t[7].0[0]);
        assert(s.subrange(0, t[8].0.len() as int)[0] != t[8].0[0]);
    } else if i == 10 {
        assert(s.subrange(0, t[0].0.len() as int)[1] != t[0].0[1]);
        assert(s.subrange(0, t[1].0.len() as int)[0] != t[1].0[0]);
        assert(s.subrange(0, t[2].0.len() as int)[0] != t[2].0[0]);
        assert(s.subrange(0, t[3].0.len() as int)[0] != t[3].0[0]);
        assert(s.subrange(0, t[4].0.len() as int)[0] != t[4].0[0]);
        assert(s.subrange(0, t[5].0.len() as int)[0] != t[5].0[0]);
        assert(s.subrange(0, t[6].0.len() as int)[0] != t[6].0[0]);
        assert(s.subrange(0, t[7].0.len() as int)[0] != t[7].0[0]);
        assert(s.subrange(0, t[8].0.len() as int)[0] != t[8].0[0]);
        assert(s.subrange(0, t[9].0.len() as int)[0] != t[9].0[0]);
    } else if i == 11 {
        assert(s.subrange(0, t[0].0.len() as int)[0] != t[0].0[0]);
        assert(s.subrange(0, t[1].0.len() as int)[1] != t[1].0[1]);
        assert(s.subrange(0, t[2].0.len() as int)[1] != t[2].0[1]);
        assert(s.subrange(0, t[3].0.len() as int)[0] != t[3].0[0]);
        assert(s.subrange(0, t[4].0.len() as int)[0] != t[4].0[0]);
        assert(s.subrange(0, t[5].0.len() as int)[0] != t[5].0[0]);
        assert(s.subrange(0, t[6].0.len() as int)[0] != t[6].0[0]);
        assert(s.subrange(0, t[7].0.len() as int)[0] != t[7].0[0]);
        assert(s.subrange(0, t[8].0.len() as int)[0] != t[8].0[0]);
        assert(s.subrange(0, t[9].0.len() as int)[0] != t[9].0[0]);
        assert(s.subrange(0, t[10].0.len() as int)[0] != t[10].0[0]);
    } else if i == 12 {
        assert(s.subrange(0, t[0].0.len() as int)[0] != t[0].0[0]);
        assert(s.subrange(0, t[1].0.len() as int)[0] != t[1].0[0]);
        assert(s.subrange(0, t[2].0.len() as int)[0] != t[2].0[0]);
        assert(s.subrange(0, t[3].0.len() as int)[1] != t[3].0[1]);
        assert(s.subrange(0, t[4].0.len() as int)[0] != t[4].0[0]);
        assert(s.subrange(0, t[5].0.len() as int)[0] != t[5].0[0]);
        assert(s.subrange(0, t[6].0.len() as int)[0] != t[6].0[0]);
        assert(s.subrange(0, t[7].0.len() as int)[0] != t[7].0[0]);
        assert(s.subrange(0, t[8].0.len() as int)[0] != t[8].0[0]);
        assert(s.subrange(0, t[9].0.len() as int)[0] != t[9].0[0]);
        assert(s.subrange(0, t[10].0.len() as int)[0] != t[10].0[0]);
        assert(s.subrange(0, t[11].0.len() as int)[0] != t[11].0[0]);
    } else if i == 13 {
        assert(s.subrange(0, t[0].0.len() as int)[0] != t[0].0[0]);
        assert(s.subrange(0, t[1].0.len() as int)[0] != t[1].0[0]);
        assert(s.subrange(0, t[2].0.len() as int)[0] != t[2].0[0]);
        assert(s.subrange(0, t[3].0.len() as int)[0] != t[3].0[0]);
        assert(s.subrange(0, t[4].0.len() as int)[1] != t[4].0[1]);
        assert(s.subrange(0, t[5].0.len() as int)[0] != t[5].0[0]);
        assert(s.subrange(0, t[6].0.len() as int)[0] != t[6].0[0]);
        assert(s.subrange(0, t[7].0.len() as int)[0] != t[7].0[0]);
        assert(s.subrange(0, t[8].0.len() as int)[0] != t[8].0[0]);
        assert(s.subrange(0, t[9].0.len() as int)[0] != t[9].0[0]);
        assert(s.subrange(0, t[10].0.len() as int)[0] != t[10].0[0]);
        assert(s.subrange(0, t[11].0.len() as int)[0] != t[11].0[0]);
        assert(s.subrange(0, t[12].0.len() as int)[0] != t[12].0[0]);
    } else if i == 14 {
        assert(s.subrange(0, t[0].0.len() as int)[0] != t[0].0[0]);
        assert(s.subrange(0, t[1].0.len() as int)[0] != t[1].0[0]);
        assert(s.subrange(0, t[2].0.len() as int)[0] != t[2].0[0]);
        assert(s.subrange(0, t[3].0.len() as int)[0] != t[3].0[0]);
        assert(s.subrange(0, t[4].0.len() as int)[0] != t[4].0[0]);
        assert(s.subrange(0, t[5].0.len() as int)[1] != t[5].0[1]);
        assert(s.subrange(0, t[6].0.len() as int)[1] != t[6].0[1]);
        assert(s.subrange(0, t[7].0.len() as int)[0] != t[7].0[0]);
        assert(s.subrange(0, t[8].0.len() as int)[0] != t[8].0[0]);
        assert(s.subrange(0, t[9].0.len() as int)[0] != t[9].0[0]);
        assert(s.subrange(0, t[10].0.len() as int)[0] != t[10].0[0]);
        assert(s.subrange(0, t[11].0.len() as int)[0] != t[11].0[0]);
        assert(s.subrange(0, t[12].0.len() as int)[0] != t[12].0[0]);
        assert(s.subrange(0, t[13].0.len() as int)[0] != t[13].0[0]);
    } else if i == 15 {
        assert(s.subrange(0, t[0].0.len() as int)[0] != t[0].0[0]);
        assert(s.subrange(0, t[1].0.len() as int)[0] != t[1].0[0]);
        assert(s.subrange(0, t[2].0.len() as int)[0] != t[2].0[0]);
        assert(s.subrange(0, t[3].0.len() as int)[0] != t[3].0[0]);
        assert(s.subrange(0, t[4].0.len() as int)[0] != t[4].0[0]);
        assert(s.subrange(0, t[5].0.len() as int)[0] != t[5].0[0]);
        assert(s.subrange(0, t[6].0.len() as int)[0] != t[6].0[0]);
        assert(s.subrange(0, t[7].0.len() as int)[1] != t[7].0[1]);
        assert(s.subrange(0, t[8].0.len() as int)[1] != t[8].0[1]);
        assert(s.subrange(0, t[9].0.len() as int)[0] != t[9].0[0]);
        assert(s.subrange(0, t[10].0.len() as int)[0] != t[10].0[0]);
        assert(s.subrange(0, t[11].0.len() as int)[0] != t[11].0[0]);
        assert(s.subrange(0, t[12].0.len() as int)[0] != t[12].0[0]);
        assert(s.subrange(0, t[13].0.len() as int)[0] != t[13].0[0]);
        assert(s.subrange(0, t[14].0.len() as int)[0] != t[14].0[0]);
    } else if i == 16 {
        assert(s.subrange(0, t[0].0.len() as int)[0] != t[0].0[0]);
        assert(s.subrange(0, t[1].0.len() as int)[0] != t[1].0[0]);
        assert(s.subrange(0, t[2].0.len() as int)[0] != t[2].0[0]);
        assert(s.subrange(0, t[3].0.len() as int)[0] != t[3].0[0]);
        assert(s.subrange(0, t[4].0.len() as int)[0] != t[4].0[0]);
        assert(s.subrange(0, t[5].0.len() as int)[0] != t[5].0[0]);
        assert(s.subrange(0, t[6].0.len() as int)[0] != t[6].0[0]);
        assert(s.subrange(0, t[7].0.len() as int)[0] != t[7].0[0]);
        assert(s.subrange(0, t[8].0.len() as int)[0] != t[8].0[0]);
        assert(s.subrange(0, t[9].0.len() as int)[1] != t[9].0[1]);
        assert(s.subrange(0, t[10].0.len() as int)[0] != t[10].0[0]);
        assert(s.subrange(0, t[11].0.len() as int)[0] != t[11].0[0]);
        assert(s.subrange(0, t[12].0.len() as int)[0] != t[12].0[0]);
        assert(s.subrange(0, t[13].0.len() as int)[0] != t[13].0[0]);
        assert(s.subrange(0, t[14].0.len() as int)[0] != t[14].0[0]);
        assert(s.subrange(0, t[15].0.len() as int)[0] != t[15].0[0]);
    }
}

/// Law: a root written as a note name and octave (`C4`, `F#3`, `Bb2`)
/// reads as the same MIDI note through `parse_root_pitch` as through the
/// pattern grammar's `pitch_val`, and a root without an octave reads as
/// octave 4.
pub proof fn law_root_pitch_matches_pitch_val(i: int, ds: Seq<char>)
    requires
        0 <= i < crate::parser::primitives::note_names().len(),
        octave_digits(ds),
        (digits_val(ds, 0, ds.len() as int) + 1) * 12 + crate::parser::primitives::note_names()[i].1 <= 127,
    ensures
        ({
            let s = crate::parser::primitives::note_names()[i].0 + ds;
            &&& crate::parser::primitives::spec_pitch_val(s, 0) == Some((root_pitch_value(s) as u8, s.len() as usize))
            &&& root_pitch_value(s) == (digits_val(ds, 0, ds.len() as int) + 1) * 12 + crate::parser::primitives::note_names()[i].1
        }),
        root_pitch_value(crate::parser::primitives::note_names()[i].0) == root_pitch_value(crate::parser::primitives::note_names()[i].0 + seq!['4']),
{
    let n = crate::parser::primitives::note_names()[i].0;
    let s = n + ds;
    assert(n.len() == 1 || n.len() == 2);
    lemma_root_value(i, ds);
    lemma_root_value(i, Seq::empty());
    assert(n + Seq::<char>::empty() =~= n);
    let four = seq!['4'];
    assert(octave_digits(four));
    assert(digits_val(four, 0, 1) == 4) by {
        reveal_with_fuel(digits_val, 2);
    }
    lemma_root_value(i, four);
    lemma_name_found(i, ds);
    let e = n.len();
    if ds[0] == '0' {
        assert(s[e as int] == '0');
        assert(crate::parser::primitives::spec_text_int(s, e as usize) == Some((e + 1) as usize));
        assert(s.len() == e + 1);
    } else {
        if ds.len() >= 2 {
            lemma_digits_grow(ds, ds.len() as int);
            assert(digits_val(ds, 0, 1) >= 1);
        }
        assert(ds.len() == 1);
        assert(forall|k: int| e + 1 <= k < s.len() ==> is_digit(#[trigger] s[k])) by {
            assert forall|k: int| e + 1 <= k < s.len() implies is_digit(#[trigger] s[k]) by {
                assert(s[k] == ds[k - e]);
            }
        }
        lemma_digits_run_to_end(s, (e + 1) as usize);
    }
    lemma_digits_val_shift(n, ds, ds.len() as int);
}

} // verus!

//! Lexical building blocks of the `.mmn` grammar. Every parser takes the
//! text as characters and a start position, and answers with what it read
//! and the position after it, or `None`.
use vstd::prelude::*;
use crate::ast::Decimal;

verus! {

/// Rust's `char::is_whitespace`: the Unicode `White_Space` property.
pub open spec fn is_ws(c: char) -> bool {
    ('\u{9}' <= c && c <= '\u{d}') || c == ' ' || c == '\u{85}' || c == '\u{a0}' || c == '\u{1680}'
        || ('\u{2000}' <= c && c <= '\u{200a}') || c == '\u{2028}' || c == '\u{2029}' || c
        == '\u{202f}' || c == '\u{205f}' || c == '\u{3000}'
}

pub fn char_is_ws(c: char) -> (r: bool)
    ensures
        r == is_ws(c),
{
    ('\u{9}' <= c && c <= '\u{d}') || c == ' ' || c == '\u{85}' || c == '\u{a0}' || c == '\u{1680}'
        || ('\u{2000}' <= c && c <= '\u{200a}') || c == '\u{2028}' || c == '\u{2029}' || c
        == '\u{202f}' || c == '\u{205f}' || c == '\u{3000}'
}

pub open spec fn is_digit(c: char) -> bool {
    '0' <= c && c <= '9'
}

pub open spec fn digit_val(c: char) -> nat {
    ((c as u32) - ('0' as u32)) as nat
}

/// Skips white space and `//` comments (a comment runs up to the end of its line).
pub open spec fn pad_from(s: Seq<char>, pos: usize, in_comment: bool) -> usize
    decreases s.len() - pos, if in_comment { 1nat } else { 0nat }
    when pos <= s.len() && s.len() <= usize::MAX
{
    if pos >= s.len() {
        pos
    } else if in_comment {
        if s[pos as int] == '\n' {
            pad_from(s, pos, false)
        } else {
            pad_from(s, (pos + 1) as usize, true)
        }
    } else if is_ws(s[pos as int]) {
        pad_from(s, (pos + 1) as usize, false)
    } else if pos + 1 < s.len() && s[pos as int] == '/' && s[pos + 1] == '/' {
        pad_from(s, (pos + 2) as usize, true)
    } else {
        pos
    }
}

/// The position after the white space and comments that start at `pos`.
pub open spec fn spec_padding(s: Seq<char>, pos: usize) -> usize {
    pad_from(s, pos, false)
}

pub proof fn lemma_pad_from_bounds(s: Seq<char>, pos: usize, in_comment: bool)
    requires
        pos <= s.len(),
        s.len() <= usize::MAX,
    ensures
        pos <= pad_from(s, pos, in_comment) <= s.len(),
    decreases s.len() - pos, if in_comment { 1nat } else { 0nat },
{
    if pos < s.len() {
        if in_comment {
            if s[pos as int] == '\n' {
                lemma_pad_from_bounds(s, pos, false);
            } else {
                lemma_pad_from_bounds(s, (pos + 1) as usize, true);
            }
        } else if is_ws(s[pos as int]) {
            lemma_pad_from_bounds(s, (pos + 1) as usize, false);
        } else if pos + 1 < s.len() && s[pos as int] == '/' && s[pos + 1] == '/' {
            lemma_pad_from_bounds(s, (pos + 2) as usize, true);
        }
    }
}

pub proof fn lemma_padding_bounds(s: Seq<char>, pos: usize)
    requires
        pos <= s.len(),
        s.len() <= usize::MAX,
    ensures
        pos <= spec_padding(s, pos) <= s.len(),
{
    lemma_pad_from_bounds(s, pos, false);
}

/// Skips white space and comments.
pub fn padding(s: &Vec<char>, pos: usize) -> (r: usize)
    requires
        pos <= s@.len() <= usize::MAX,
    ensures
        r == spec_padding(s@, pos),
        pos <= r <= s@.len(),
{
    proof {
        lemma_padding_bounds(s@, pos);
    }
    let n = s.len();
    let mut p = pos;
    let mut in_comment = false;
    loop
        invariant
            n == s@.len(),
            pos <= p <= n,
            pad_from(s@, p, in_comment) == spec_padding(s@, pos),
        decreases n - p, if in_comment { 1nat } else { 0nat },
    {
        if p >= n {
            return p;
        }
        if in_comment {
            if s[p] == '\n' {
                in_comment = false;
            } else {
                p = p + 1;
            }
        } else if char_is_ws(s[p]) {
            p = p + 1;
        } else if p + 1 < n && s[p] == '/' && s[p + 1] == '/' {
            p = p + 2;
            in_comment = true;
        } else {
            return p;
        }
    }
}

/// The literal `w` at `pos`: the position after it.
pub open spec fn spec_lit(s: Seq<char>, pos: usize, w: Seq<char>) -> Option<usize> {
    if pos + w.len() <= s.len() && s.subrange(pos as int, pos + w.len()) == w {
        Some((pos + w.len()) as usize)
    } else {
        None
    }
}

/// Matches the literal `w` at `pos`.
pub fn lit(s: &Vec<char>, pos: usize, w: &[char]) -> (r: Option<usize>)
    requires
        pos <= s@.len() <= usize::MAX,
    ensures
        r == spec_lit(s@, pos, w@),
        r matches Some(p) ==> pos <= p <= s@.len(),
{
    let n = s.len();
    if w.len() > n - pos {
        return None;
    }
    let mut i: usize = 0;
    while i < w.len()
        invariant
            n == s@.len(),
            0 <= i <= w@.len(),
            pos + w@.len() <= n,
            forall|j: int| 0 <= j < i ==> s@[pos + j] == w@[j],
        decreases w.len() - i,
    {
        if s[pos + i] != w[i] {
            assert(s@.subrange(pos as int, pos + w@.len())[i as int] != w@[i as int]);
            return None;
        }
        i += 1;
    }
    assert(s@.subrange(pos as int, pos + w@.len()) =~= w@);
    Some(pos + w.len())
}

/// A literal surrounded by padding (the `kw` of the grammar).
pub open spec fn spec_kw(s: Seq<char>, pos: usize, w: Seq<char>) -> Option<usize> {
    match spec_lit(s, spec_padding(s, pos), w) {
        Some(p) => Some(spec_padding(s, p)),
        None => None,
    }
}

pub proof fn lemma_kw_bounds(s: Seq<char>, pos: usize, w: Seq<char>)
    requires
        pos <= s.len(),
        s.len() <= usize::MAX,
    ensures
        spec_kw(s, pos, w) matches Some(p) ==> pos < p <= s.len() || (w.len() == 0 && pos <= p
            <= s.len()),
{
    lemma_padding_bounds(s, pos);
    let p0 = spec_padding(s, pos);
    if let Some(p1) = spec_lit(s, p0, w) {
        lemma_padding_bounds(s, p1);
    }
}

/// Matches a keyword with padding on both sides.
pub fn kw(s: &Vec<char>, pos: usize, w: &[char]) -> (r: Option<usize>)
    requires
        pos <= s@.len() <= usize::MAX,
    ensures
        r == spec_kw(s@, pos, w@),
        r matches Some(p) ==> pos <= p <= s@.len(),
{
    let p0 = padding(s, pos);
    match lit(s, p0, w) {
        Some(p1) => Some(padding(s, p1)),
        None => None,
    }
}

/// A single character surrounded by padding.
pub open spec fn spec_pad_char(s: Seq<char>, pos: usize, c: char) -> Option<usize> {
    spec_kw(s, pos, seq![c])
}

pub proof fn lemma_pad_char_bounds(s: Seq<char>, pos: usize, c: char)
    requires
        pos <= s.len(),
        s.len() <= usize::MAX,
    ensures
        spec_pad_char(s, pos, c) matches Some(p) ==> pos < p <= s.len(),
{
    lemma_kw_bounds(s, pos, seq![c]);
}

/// Matches a single character with padding on both sides.
pub fn pad_char(s: &Vec<char>, pos: usize, c: char) -> (r: Option<usize>)
    requires
        pos <= s@.len() <= usize::MAX,
    ensures
        r == spec_pad_char(s@, pos, c),
        r matches Some(p) ==> pos < p <= s@.len(),
{
    proof {
        lemma_pad_char_bounds(s@, pos, c);
    }
    let w = [c];
    assert(w@ =~= seq![c]);
    kw(s, pos, &w)
}

/// The single character `c` at `pos`, without padding.
pub open spec fn spec_just(s: Seq<char>, pos: usize, c: char) -> Option<usize> {
    if pos < s.len() && s[pos as int] == c {
        Some((pos + 1) as usize)
    } else {
        None
    }
}

pub fn just(s: &Vec<char>, pos: usize, c: char) -> (r: Option<usize>)
    requires
        pos <= s@.len() <= usize::MAX,
    ensures
        r == spec_just(s@, pos, c),
{
    if pos < s.len() && s[pos] == c {
        Some(pos + 1)
    } else {
        None
    }
}

/// The first position at or after `pos` that does not hold a digit.
pub open spec fn spec_digits_end(s: Seq<char>, pos: usize) -> usize
    decreases s.len() - pos
    when pos <= s.len() && s.len() <= usize::MAX
{
    if pos < s.len() && is_digit(s[pos as int]) {
        spec_digits_end(s, (pos + 1) as usize)
    } else {
        pos
    }
}

pub proof fn lemma_digits_end(s: Seq<char>, pos: usize)
    requires
        pos <= s.len(),
        s.len() <= usize::MAX,
    ensures
        pos <= spec_digits_end(s, pos) <= s.len(),
        forall|i: int| pos <= i < spec_digits_end(s, pos) ==> is_digit(s[i]),
    decreases s.len() - pos,
{
    if pos < s.len() && is_digit(s[pos as int]) {
        lemma_digits_end(s, (pos + 1) as usize);
    }
}

fn digits_end(s: &Vec<char>, pos: usize) -> (r: usize)
    requires
        pos <= s@.len() <= usize::MAX,
    ensures
        r == spec_digits_end(s@, pos),
{
    let n = s.len();
    let mut p = pos;
    while p < n && '0' <= s[p] && s[p] <= '9'
        invariant
            n == s@.len(),
            pos <= p <= n,
            spec_digits_end(s@, p) == spec_digits_end(s@, pos),
        decreases n - p,
    {
        p = p + 1;
    }
    p
}

/// An unsigned decimal integer without superfluous leading zeros: either
/// `0`, or a non-zero digit followed by digits. Answers the end position.
pub open spec fn spec_text_int(s: Seq<char>, pos: usize) -> Option<usize> {
    if pos < s.len() && s[pos as int] == '0' {
        Some((pos + 1) as usize)
    } else if pos < s.len() && is_digit(s[pos as int]) {
        Some(spec_digits_end(s, (pos + 1) as usize))
    } else {
        None
    }
}

pub proof fn lemma_text_int(s: Seq<char>, pos: usize)
    requires
        pos <= s.len(),
        s.len() <= usize::MAX,
    ensures
        spec_text_int(s, pos) matches Some(e) ==> pos < e <= s.len() && (forall|i: int|
            pos <= i < e ==> is_digit(s[i])),
{
    if pos < s.len() && s[pos as int] != '0' && is_digit(s[pos as int]) {
        lemma_digits_end(s, (pos + 1) as usize);
    }
}

fn text_int(s: &Vec<char>, pos: usize) -> (r: Option<usize>)
    requires
        pos <= s@.len() <= usize::MAX,
    ensures
        r == spec_text_int(s@, pos),
{
    if pos < s.len() && s[pos] == '0' {
        Some(pos + 1)
    } else if pos < s.len() && '0' <= s[pos] && s[pos] <= '9' {
        Some(digits_end(s, pos + 1))
    } else {
        None
    }
}

/// The number that the digits `s[start..end]` write.
pub open spec fn digits_val(s: Seq<char>, start: int, end: int) -> nat
    decreases end - start,
{
    if end <= start {
        0
    } else {
        digits_val(s, start, end - 1) * 10 + digit_val(s[end - 1])
    }
}

/// The value of a run of digits, if it fits in a `u64`.
fn digits_value(s: &Vec<char>, start: usize, end: usize) -> (r: Option<u64>)
    requires
        start <= end <= s@.len(),
        forall|i: int| start <= i < end ==> is_digit(s@[i]),
    ensures
        r == (if digits_val(s@, start as int, end as int) <= u64::MAX {
            Some(digits_val(s@, start as int, end as int) as u64)
        } else {
            None::<u64>
        }),
{
    let mut v: u64 = 0;
    let mut i = start;
    while i < end
        invariant
            start <= i <= end <= s@.len(),
            forall|k: int| start <= k < end ==> is_digit(s@[k]),
            v == digits_val(s@, start as int, i as int),
        decreases end - i,
    {
        let d: u64 = (s[i] as u32 - '0' as u32) as u64;
        if v > (u64::MAX - d) / 10 {
            proof {
                lemma_digits_val_monotone(s@, start as int, (i + 1) as int, end as int);
                assert(v * 10 + d > u64::MAX) by (nonlinear_arith)
                    requires
                        v > (u64::MAX - d) / 10,
                        d <= 9,
                ;
            }
            return None;
        }
        proof {
            assert(v * 10 + d <= u64::MAX) by (nonlinear_arith)
                requires
                    v <= (u64::MAX - d) / 10,
                    d <= 9,
            ;
        }
        v = v * 10 + d;
        i = i + 1;
    }
    Some(v)
}

/// A longer run of digits never writes a smaller number.
pub proof fn lemma_digits_val_monotone(s: Seq<char>, start: int, mid: int, end: int)
    requires
        start <= mid <= end,
    ensures
        digits_val(s, start, mid) <= digits_val(s, start, end),
    decreases end - mid,
{
    if mid < end {
        lemma_digits_val_monotone(s, start, mid, end - 1);
    }
}

/// A `u8` written in decimal.
pub open spec fn spec_int_u8(s: Seq<char>, pos: usize) -> Option<(u8, usize)> {
    match spec_text_int(s, pos) {
        Some(e) => if digits_val(s, pos as int, e as int) <= 255 {
            Some((digits_val(s, pos as int, e as int) as u8, e))
        } else {
            None
        },
        None => None,
    }
}

/// Parses a `u8` written in decimal.
pub fn int_u8(s: &Vec<char>, pos: usize) -> (r: Option<(u8, usize)>)
    requires
        pos <= s@.len() <= usize::MAX,
    ensures
        r == spec_int_u8(s@, pos),
        r matches Some((_, p)) ==> pos < p <= s@.len(),
{
    proof {
        lemma_text_int(s@, pos);
    }
    match text_int(s, pos) {
        Some(e) => match digits_value(s, pos, e) {
            Some(v) => if v <= 255 {
                Some((v as u8, e))
            } else {
                None
            },
            None => None,
        },
        None => None,
    }
}

/// A `usize` written in decimal.
pub open spec fn spec_int_usize(s: Seq<char>, pos: usize) -> Option<(usize, usize)> {
    match spec_text_int(s, pos) {
        Some(e) => if digits_val(s, pos as int, e as int) <= usize::MAX {
            Some((digits_val(s, pos as int, e as int) as usize, e))
        } else {
            None
        },
        None => None,
    }
}

/// Parses a `usize` written in decimal.
pub fn int_usize(s: &Vec<char>, pos: usize) -> (r: Option<(usize, usize)>)
    requires
        pos <= s@.len() <= usize::MAX,
    ensures
        r == spec_int_usize(s@, pos),
        r matches Some((_, p)) ==> pos < p <= s@.len(),
{
    proof {
        lemma_text_int(s@, pos);
    }
    match text_int(s, pos) {
        Some(e) => match digits_value(s, pos, e) {
            Some(v) => if v <= usize::MAX as u64 {
                Some((v as usize, e))
            } else {
                None
            },
            None => None,
        },
        None => None,
    }
}

/// A `u64` written in decimal.
pub open spec fn spec_int_u64(s: Seq<char>, pos: usize) -> Option<(u64, usize)> {
    match spec_text_int(s, pos) {
        Some(e) => if digits_val(s, pos as int, e as int) <= u64::MAX {
            Some((digits_val(s, pos as int, e as int) as u64, e))
        } else {
            None
        },
        None => None,
    }
}

/// Parses a `u64` written in decimal.
pub fn int_u64(s: &Vec<char>, pos: usize) -> (r: Option<(u64, usize)>)
    requires
        pos <= s@.len() <= usize::MAX,
    ensures
        r == spec_int_u64(s@, pos),
        r matches Some((_, p)) ==> pos < p <= s@.len(),
{
    proof {
        lemma_text_int(s@, pos);
    }
    match text_int(s, pos) {
        Some(e) => digits_value(s, pos, e).map(|v: u64| -> (r: (u64, usize))
            ensures
                r == (v, e),
            { (v, e) }),
        None => None,
    }
}

/// An optionally negated `i32`: a `-` sign, then digits whose value is at
/// most `i32::MAX`.
pub open spec fn spec_int_i32(s: Seq<char>, pos: usize) -> Option<(i32, usize)> {
    let neg = spec_just(s, pos, '-') is Some;
    let p = if neg {
        (pos + 1) as usize
    } else {
        pos
    };
    match spec_text_int(s, p) {
        Some(e) => if digits_val(s, p as int, e as int) <= i32::MAX {
            let v = digits_val(s, p as int, e as int) as int;
            let x: int = if neg {
                -v
            } else {
                v
            };
            Some((x as i32, e))
        } else {
            None
        },
        None => None,
    }
}

/// Parses an optionally negated `i32`.
pub fn int_i32(s: &Vec<char>, pos: usize) -> (r: Option<(i32, usize)>)
    requires
        pos <= s@.len() <= usize::MAX,
    ensures
        r == spec_int_i32(s@, pos),
        r matches Some((_, p)) ==> pos < p <= s@.len(),
{
    let neg = just(s, pos, '-').is_some();
    let p = if neg {
        pos + 1
    } else {
        pos
    };
    proof {
        lemma_text_int(s@, p);
    }
    match text_int(s, p) {
        Some(e) => match digits_value(s, p, e) {
            Some(v) => if v <= i32::MAX as u64 {
                let x = v as i32;
                Some(
                    (if neg {
                        -x
                    } else {
                        x
                    }, e),
                )
            } else {
                None
            },
            None => None,
        },
        None => None,
    }
}

/// A decimal literal: an optional `-`, an integer (as `spec_text_int`
/// reads it), then optionally a point and at least one digit. Its digits,
/// point removed, must fit in a `u64`.
pub open spec fn spec_decimal(s: Seq<char>, pos: usize) -> Option<(Decimal, usize)> {
    let neg = spec_just(s, pos, '-') is Some;
    let p = if neg {
        (pos + 1) as usize
    } else {
        pos
    };
    match spec_text_int(s, p) {
        Some(e1) => {
            let has_frac = e1 < s.len() && s[e1 as int] == '.' && e1 + 1 < s.len() && is_digit(
                s[e1 + 1],
            );
            let e2 = if has_frac {
                spec_digits_end(s, (e1 + 1) as usize)
            } else {
                e1
            };
            let int_v = digits_val(s, p as int, e1 as int);
            let frac_len: int = if has_frac {
                e2 - e1 - 1
            } else {
                0
            };
            let frac_v = if has_frac {
                digits_val(s, e1 + 1, e2 as int)
            } else {
                0
            };
            let mant = int_v * pow10(frac_len as nat) + frac_v;
            if mant <= u64::MAX && frac_len <= u32::MAX {
                Some((Decimal { negative: neg, mantissa: mant as u64, scale: frac_len as u32 }, e2))
            } else {
                None
            }
        },
        None => None,
    }
}

pub open spec fn pow10(n: nat) -> nat
    decreases n,
{
    if n == 0 {
        1
    } else {
        10 * pow10((n - 1) as nat)
    }
}

pub proof fn lemma_pow10_pos(n: nat)
    ensures
        pow10(n) >= 1,
    decreases n,
{
    if n > 0 {
        lemma_pow10_pos((n - 1) as nat);
    }
}

/// Parses a decimal literal (read where the grammar asks for an `f32`).
pub fn float_f32(s: &Vec<char>, pos: usize) -> (r: Option<(Decimal, usize)>)
    requires
        pos <= s@.len() <= usize::MAX,
    ensures
        r == spec_decimal(s@, pos),
        r matches Some((_, p)) ==> pos < p <= s@.len(),
{
    decimal(s, pos)
}

/// Parses a decimal literal (read where the grammar asks for an `f64`).
pub fn float_f64(s: &Vec<char>, pos: usize) -> (r: Option<(Decimal, usize)>)
    requires
        pos <= s@.len() <= usize::MAX,
    ensures
        r == spec_decimal(s@, pos),
        r matches Some((_, p)) ==> pos < p <= s@.len(),
{
    decimal(s, pos)
}

#[verifier::loop_isolation(false)]
fn decimal(s: &Vec<char>, pos: usize) -> (r: Option<(Decimal, usize)>)
    requires
        pos <= s@.len() <= usize::MAX,
    ensures
        r == spec_decimal(s@, pos),
        r matches Some((_, p)) ==> pos < p <= s@.len(),
{
    let n = s.len();
    let neg = just(s, pos, '-').is_some();
    let p = if neg {
        pos + 1
    } else {
        pos
    };
    proof {
        lemma_text_int(s@, p);
    }
    let e1 = match text_int(s, p) {
        Some(e) => e,
        None => return None,
    };
    let has_frac = e1 < n && s[e1] == '.' && e1 + 1 < n && '0' <= s[e1 + 1] && s[e1 + 1] <= '9';
    let e2 = if has_frac {
        digits_end(s, e1 + 1)
    } else {
        e1
    };
    proof {
        if has_frac {
            lemma_digits_end(s@, (e1 + 1) as usize);
        }
    }
    // All the digits, the point skipped, accumulated in one number.
    let mut v: u64 = 0;
    let mut i = p;
    let ghost mut scale_so_far: nat = 0;
    while i < e1
        invariant
            p <= i <= e1 <= e2 <= n,
            n == s@.len(),
            forall|k: int| p <= k < e1 ==> is_digit(s@[k]),
            v == digits_val(s@, p as int, i as int),
        decreases e1 - i,
    {
        let d: u64 = (s[i] as u32 - '0' as u32) as u64;
        if v > (u64::MAX - d) / 10 {
            proof {
                lemma_digits_val_monotone(s@, p as int, (i + 1) as int, e1 as int);
                assert(v * 10 + d > u64::MAX) by (nonlinear_arith)
                    requires
                        v > (u64::MAX - d) / 10,
                        d <= 9,
                ;
                lemma_pow10_pos((if has_frac { e2 - e1 - 1 } else { 0int }) as nat);
                let iv = digits_val(s@, p as int, e1 as int);
                let pw = pow10((if has_frac { e2 - e1 - 1 } else { 0int }) as nat);
                let fv = if has_frac { digits_val(s@, e1 + 1, e2 as int) } else { 0 };
                assert(iv * pw + fv >= iv) by (nonlinear_arith)
                    requires
                        pw >= 1,
                        fv >= 0,
                        iv >= 0,
                ;
                assert(digits_val(s@, p as int, i + 1) == v * 10 + d);
                assert(iv > u64::MAX);
                let frac_len: int = if has_frac { e2 - e1 - 1 } else { 0 };
                let frac_v = if has_frac { digits_val(s@, e1 + 1, e2 as int) } else { 0 };
                lemma_pow10_pos(frac_len as nat);
                assert(iv * pow10(frac_len as nat) + frac_v > u64::MAX) by (nonlinear_arith)
                    requires
                        iv > u64::MAX,
                        pow10(frac_len as nat) >= 1,
                        frac_v >= 0,
                ;
            }
            return None;
        }
        proof {
            assert(v * 10 + d <= u64::MAX) by (nonlinear_arith)
                requires
                    v <= (u64::MAX - d) / 10,
                    d <= 9,
            ;
        }
        v = v * 10 + d;
        i = i + 1;
    }
    if !has_frac {
        proof {
            assert(pow10(0) == 1);
            assert(v * pow10(0) == v) by (nonlinear_arith)
                requires
                    pow10(0) == 1,
            ;
        }
        return Some((Decimal { negative: neg, mantissa: v, scale: 0 }, e2));
    }
    let mut j = e1 + 1;
    let mut sc: u32 = 0;
    let ghost int_v = v as nat;
    proof {
        assert(pow10(0) == 1);
        assert(v * pow10(0) == v) by (nonlinear_arith)
            requires
                pow10(0) == 1,
        ;
        assert(digits_val(s@, e1 + 1, e1 + 1) == 0);
    }
    while j < e2
        invariant
            e1 + 1 <= j <= e2 <= n,
            n == s@.len(),
            has_frac,
            forall|k: int| e1 + 1 <= k < e2 ==> is_digit(s@[k]),
            int_v == digits_val(s@, p as int, e1 as int),
            sc == j - e1 - 1,
            v == int_v * pow10(sc as nat) + digits_val(s@, e1 + 1, j as int),
        decreases e2 - j,
    {
        let d: u64 = (s[j] as u32 - '0' as u32) as u64;
        if v > (u64::MAX - d) / 10 || sc == u32::MAX {
            proof {
                let frac_len: int = e2 - e1 - 1;
                let total = int_v * pow10(frac_len as nat) + digits_val(s@, e1 + 1, e2 as int);
                assert(has_frac);
                if sc < u32::MAX {
                    assert(v * 10 + d > u64::MAX) by (nonlinear_arith)
                        requires
                            v > (u64::MAX - d) / 10,
                            d <= 9,
                    ;
                    lemma_prefix_growth(s@, int_v, e1 as int, (j + 1) as int, e2 as int);
                    assert(int_v * pow10((sc + 1) as nat) + digits_val(s@, e1 + 1, j + 1) == v * 10 + d)
                        by (nonlinear_arith)
                        requires
                            v == int_v * pow10(sc as nat) + digits_val(s@, e1 + 1, j as int),
                            pow10((sc + 1) as nat) == 10 * pow10(sc as nat),
                            digits_val(s@, e1 + 1, j + 1) == digits_val(s@, e1 + 1, j as int) * 10 + d,
                    ;
                    assert(total > u64::MAX);
                } else {
                    assert(frac_len > u32::MAX);
                }
            }
            return None;
        }
        proof {
            assert(v * 10 + d <= u64::MAX) by (nonlinear_arith)
                requires
                    v <= (u64::MAX - d) / 10,
                    d <= 9,
            ;
            assert(int_v * pow10((sc + 1) as nat) + digits_val(s@, e1 + 1, j + 1) == v * 10 + d)
                by (nonlinear_arith)
                requires
                    v == int_v * pow10(sc as nat) + digits_val(s@, e1 + 1, j as int),
                    pow10((sc + 1) as nat) == 10 * pow10(sc as nat),
                    digits_val(s@, e1 + 1, j + 1) == digits_val(s@, e1 + 1, j as int) * 10 + d,
            ;
        }
        v = v * 10 + d;
        sc = sc + 1;
        j = j + 1;
    }
    Some((Decimal { negative: neg, mantissa: v, scale: sc }, e2))
}

/// Appending digits never makes the accumulated mantissa smaller.
pub proof fn lemma_prefix_growth(s: Seq<char>, iv: nat, e1: int, j: int, e2: int)
    requires
        e1 + 1 <= j <= e2,
    ensures
        iv * pow10((j - e1 - 1) as nat) + digits_val(s, e1 + 1, j) <= iv * pow10(
            (e2 - e1 - 1) as nat,
        ) + digits_val(s, e1 + 1, e2),
    decreases e2 - j,
{
    if j < e2 {
        lemma_prefix_growth(s, iv, e1, j + 1, e2);
        let a = iv * pow10((j - e1 - 1) as nat) + digits_val(s, e1 + 1, j);
        assert(pow10((j + 1 - e1 - 1) as nat) == 10 * pow10((j - e1 - 1) as nat));
        assert(digits_val(s, e1 + 1, j + 1) == digits_val(s, e1 + 1, j) * 10 + digit_val(s[j]));
        assert(a <= iv * pow10((j + 1 - e1 - 1) as nat) + digits_val(s, e1 + 1, j + 1))
            by (nonlinear_arith)
            requires
                a == iv * pow10((j - e1 - 1) as nat) + digits_val(s, e1 + 1, j),
                pow10((j + 1 - e1 - 1) as nat) == 10 * pow10((j - e1 - 1) as nat),
                digits_val(s, e1 + 1, j + 1) == digits_val(s, e1 + 1, j) * 10 + digit_val(s[j]),
        ;
    }
}

/// Whether `c` may start an identifier.
pub open spec fn is_ident_start(c: char) -> bool {
    ('a' <= c && c <= 'z') || ('A' <= c && c <= 'Z') || c == '_'
}

/// Whether `c` may continue an identifier.
pub open spec fn is_ident_char(c: char) -> bool {
    is_ident_start(c) || is_digit(c)
}

pub open spec fn spec_ident_end(s: Seq<char>, pos: usize) -> usize
    decreases s.len() - pos
    when pos <= s.len() && s.len() <= usize::MAX
{
    if pos < s.len() && is_ident_char(s[pos as int]) {
        spec_ident_end(s, (pos + 1) as usize)
    } else {
        pos
    }
}

/// A C-style identifier: the position after it.
pub open spec fn spec_ident(s: Seq<char>, pos: usize) -> Option<usize> {
    if pos < s.len() && is_ident_start(s[pos as int]) {
        Some(spec_ident_end(s, (pos + 1) as usize))
    } else {
        None
    }
}

pub proof fn lemma_ident(s: Seq<char>, pos: usize)
    requires
        pos <= s.len(),
        s.len() <= usize::MAX,
    ensures
        spec_ident(s, pos) matches Some(e) ==> pos < e <= s.len(),
{
    if pos < s.len() && is_ident_start(s[pos as int]) {
        lemma_ident_end(s, (pos + 1) as usize);
    }
}

pub proof fn lemma_ident_end(s: Seq<char>, pos: usize)
    requires
        pos <= s.len(),
        s.len() <= usize::MAX,
    ensures
        pos <= spec_ident_end(s, pos) <= s.len(),
    decreases s.len() - pos,
{
    if pos < s.len() && is_ident_char(s[pos as int]) {
        lemma_ident_end(s, (pos + 1) as usize);
    }
}

fn ident_char(c: char) -> (r: bool)
    ensures
        r == is_ident_char(c),
{
    ('a' <= c && c <= 'z') || ('A' <= c && c <= 'Z') || c == '_' || ('0' <= c && c <= '9')
}

/// Reads an identifier; answers its end position.
pub fn ident(s: &Vec<char>, pos: usize) -> (r: Option<usize>)
    requires
        pos <= s@.len() <= usize::MAX,
    ensures
        r == spec_ident(s@, pos),
        r matches Some(e) ==> pos < e <= s@.len(),
{
    proof {
        lemma_ident(s@, pos);
    }
    let n = s.len();
    if !(pos < n && (('a' <= s[pos] && s[pos] <= 'z') || ('A' <= s[pos] && s[pos] <= 'Z') || s[pos]
        == '_')) {
        return None;
    }
    let mut p = pos + 1;
    while p < n && ident_char(s[p])
        invariant
            n == s@.len(),
            pos < p <= n,
            spec_ident_end(s@, p) == spec_ident_end(s@, (pos + 1) as usize),
        decreases n - p,
    {
        p = p + 1;
    }
    Some(p)
}

/// The characters `s[start..end]` as a `String`.
pub fn substring(s: &Vec<char>, start: usize, end: usize) -> (r: String)
    requires
        start <= end <= s@.len(),
    ensures
        r@ == s@.subrange(start as int, end as int),
{
    let mut v: Vec<char> = Vec::new();
    let mut i = start;
    while i < end
        invariant
            start <= i <= end <= s@.len(),
            v@ == s@.subrange(start as int, i as int),
        decreases end - i,
    {
        v.push(s[i]);
        proof {
            assert(v@ =~= s@.subrange(start as int, i + 1));
        }
        i = i + 1;
    }
    chars_to_string(&v)
}

/// Collects characters into a `String` (`String: FromIterator<char>`).
#[verifier::external_body]
pub(crate) fn chars_to_string(v: &Vec<char>) -> (r: String)
    ensures
        r@ == v@,
{
    v.iter().collect()
}

/// The semitone of a note name within its octave, `C` being 0.
pub open spec fn note_names() -> Seq<(Seq<char>, int)> {
    seq![
        (seq!['C', '#'], 1), (seq!['D', 'b'], 1), (seq!['D', '#'], 3), (seq!['E', 'b'], 3),
        (seq!['F', '#'], 6), (seq!['G', 'b'], 6), (seq!['G', '#'], 8), (seq!['A', 'b'], 8),
        (seq!['A', '#'], 10), (seq!['B', 'b'], 10), (seq!['C'], 0), (seq!['D'], 2),
        (seq!['E'], 4), (seq!['F'], 5), (seq!['G'], 7), (seq!['A'], 9), (seq!['B'], 11),
    ]
}

/// The first note name of the list (from index `i` on) that `s` holds at `pos`.
pub open spec fn spec_note_name_from(s: Seq<char>, pos: usize, i: int) -> Option<(int, usize)>
    decreases note_names().len() - i,
{
    if i < 0 || i >= note_names().len() {
        None
    } else {
        match spec_lit(s, pos, note_names()[i].0) {
            Some(e) => Some((note_names()[i].1, e)),
            None => spec_note_name_from(s, pos, i + 1),
        }
    }
}

/// A note name followed by an octave number: its MIDI pitch, clamped to 0..=127.
pub open spec fn spec_pitch_val(s: Seq<char>, pos: usize) -> Option<(u8, usize)> {
    match spec_note_name_from(s, pos, 0) {
        Some((base, e)) => match spec_text_int(s, e) {
            Some(e2) => {
                let oct = digits_val(s, e as int, e2 as int);
                if oct <= i32::MAX {
                    Some((crate::math::clamp_midi((oct + 1) * 12 + base), e2))
                } else {
                    None
                }
            },
            None => None,
        },
        None => None,
    }
}

fn note_name(s: &Vec<char>, pos: usize) -> (r: Option<(u8, usize)>)
    requires
        pos <= s@.len() <= usize::MAX,
    ensures
        match r {
            Some((x, e)) => spec_note_name_from(s@, pos, 0) == Some((x as int, e)),
            None => spec_note_name_from(s@, pos, 0) is None,
        },
        r matches Some((_, e)) ==> pos <= e <= s@.len(),
{
    let names: [(&[char], u8); 17] = [
        (&['C', '#'], 1), (&['D', 'b'], 1), (&['D', '#'], 3), (&['E', 'b'], 3),
        (&['F', '#'], 6), (&['G', 'b'], 6), (&['G', '#'], 8), (&['A', 'b'], 8),
        (&['A', '#'], 10), (&['B', 'b'], 10), (&['C'], 0), (&['D'], 2),
        (&['E'], 4), (&['F'], 5), (&['G'], 7), (&['A'], 9), (&['B'], 11),
    ];
    let mut i: usize = 0;
    while i < 17
        invariant
            pos <= s@.len() <= usize::MAX,
            0 <= i <= 17,
            names@.len() == 17,
            forall|k: int| 0 <= k < 17 ==> names@[k].0@ == note_names()[k].0 && names@[k].1 as int == note_names()[k].1,
            spec_note_name_from(s@, pos, i as int) == spec_note_name_from(s@, pos, 0),
        decreases 17 - i,
    {
        match lit(s, pos, names[i].0) {
            Some(e) => {
                return Some((names[i].1, e));
            },
            None => {},
        }
        i += 1;
    }
    None
}

/// Parses a note name with its octave (`C4`, `Eb3`).
pub fn pitch_val(s: &Vec<char>, pos: usize) -> (r: Option<(u8, usize)>)
    requires
        pos <= s@.len() <= usize::MAX,
    ensures
        r == spec_pitch_val(s@, pos),
        r matches Some((_, p)) ==> pos < p <= s@.len(),
{
    let (base, e) = match note_name(s, pos) {
        Some(x) => x,
        None => return None,
    };
    proof {
        lemma_text_int(s@, e);
    }
    match text_int(s, e) {
        Some(e2) => match digits_value(s, e, e2) {
            Some(oct) => if oct <= i32::MAX as u64 {
                let m: i64 = (oct as i64 + 1) * 12 + base as i64;
                let p: u8 = if m > 127 {
                    127
                } else {
                    m as u8
                };
                Some((p, e2))
            } else {
                None
            },
            None => None,
        },
        None => None,
    }
}

/// Drum names and their General MIDI keys.
pub open spec fn drum_names() -> Seq<(Seq<char>, u8)> {
    seq![
        (seq!['b', 'd'], 36u8), (seq!['s', 'n'], 38u8), (seq!['c', 'p'], 39u8), (seq!['l', 't'], 41u8),
        (seq!['c', 'h'], 42u8), (seq!['m', 't'], 45u8), (seq!['o', 'h'], 46u8), (seq!['h', 't'], 48u8),
    ]
}

pub open spec fn spec_drum_from(s: Seq<char>, pos: usize, i: int) -> Option<(u8, usize)>
    decreases drum_names().len() - i,
{
    if i < 0 || i >= drum_names().len() {
        None
    } else {
        match spec_lit(s, pos, drum_names()[i].0) {
            Some(e) => Some((drum_names()[i].1, e)),
            None => spec_drum_from(s, pos, i + 1),
        }
    }
}

/// Parses a drum name (`bd`, `sn`, `cp`, `lt`, `ch`, `mt`, `oh`, `ht`) as its MIDI key.
pub fn drum_val(s: &Vec<char>, pos: usize) -> (r: Option<(u8, usize)>)
    requires
        pos <= s@.len() <= usize::MAX,
    ensures
        r == spec_drum_from(s@, pos, 0),
{
    let names: [(&[char], u8); 8] = [
        (&['b', 'd'], 36), (&['s', 'n'], 38), (&['c', 'p'], 39), (&['l', 't'], 41),
        (&['c', 'h'], 42), (&['m', 't'], 45), (&['o', 'h'], 46), (&['h', 't'], 48),
    ];
    let mut i: usize = 0;
    while i < 8
        invariant
            pos <= s@.len() <= usize::MAX,
            0 <= i <= 8,
            names@.len() == 8,
            forall|k: int| 0 <= k < 8 ==> names@[k].0@ == drum_names()[k].0 && names@[k].1 == drum_names()[k].1,
            spec_drum_from(s@, pos, i as int) == spec_drum_from(s@, pos, 0),
        decreases 8 - i,
    {
        match lit(s, pos, names[i].0) {
            Some(e) => {
                return Some((names[i].1, e));
            },
            None => {},
        }
        i += 1;
    }
    None
}

} // verus!

verus! {

/// The first of `words` (from index `i` on) that `s` holds at `pos`: its
/// index and the position after it.
pub open spec fn spec_first_lit(s: Seq<char>, pos: usize, words: Seq<Seq<char>>, i: int) -> Option<(int, usize)>
    decreases words.len() - i,
{
    if i < 0 || i >= words.len() {
        None
    } else {
        match spec_lit(s, pos, words[i]) {
            Some(e) => Some((i, e)),
            None => spec_first_lit(s, pos, words, i + 1),
        }
    }
}

pub proof fn lemma_first_lit(s: Seq<char>, pos: usize, words: Seq<Seq<char>>, i: int)
    requires
        pos <= s.len() <= usize::MAX,
        0 <= i,
    ensures
        spec_first_lit(s, pos, words, i) matches Some((k, e)) ==> i <= k < words.len() && e == pos
            + words[k].len() && e <= s.len(),
    decreases words.len() - i,
{
    if i < words.len() && spec_lit(s, pos, words[i]) is None {
        lemma_first_lit(s, pos, words, i + 1);
    }
}

/// Tries the literals `words` in order at `pos`.
pub fn first_lit(s: &Vec<char>, pos: usize, words: &[&[char]]) -> (r: Option<(usize, usize)>)
    requires
        pos <= s@.len() <= usize::MAX,
    ensures
        match r {
            Some((k, e)) => spec_first_lit(s@, pos, words@.map_values(|w: &[char]| w@), 0) == Some(
                (k as int, e),
            ),
            None => spec_first_lit(s@, pos, words@.map_values(|w: &[char]| w@), 0) is None,
        },
        r matches Some((k, e)) ==> k < words@.len() && pos <= e <= s@.len(),
{
    let ghost ws = words@.map_values(|w: &[char]| w@);
    proof {
        lemma_first_lit(s@, pos, ws, 0);
    }
    let mut i: usize = 0;
    while i < words.len()
        invariant
            pos <= s@.len() <= usize::MAX,
            0 <= i <= words@.len(),
            ws == words@.map_values(|w: &[char]| w@),
            spec_first_lit(s@, pos, ws, i as int) == spec_first_lit(s@, pos, ws, 0),
        decreases words.len() - i,
    {
        assert(ws[i as int] == words@[i as int]@);
        match lit(s, pos, words[i]) {
            Some(e) => {
                return Some((i, e));
            },
            None => {},
        }
        i += 1;
    }
    None
}

} // verus!

verus! {

pub proof fn lemma_int_u8_bounds(s: Seq<char>, pos: usize)
    requires
        pos <= s.len() <= usize::MAX,
    ensures
        spec_int_u8(s, pos) matches Some((_, e)) ==> pos < e <= s.len(),
{
    lemma_text_int(s, pos);
}

pub proof fn lemma_int_usize_bounds(s: Seq<char>, pos: usize)
    requires
        pos <= s.len() <= usize::MAX,
    ensures
        spec_int_usize(s, pos) matches Some((_, e)) ==> pos < e <= s.len(),
{
    lemma_text_int(s, pos);
}

pub proof fn lemma_int_u64_bounds(s: Seq<char>, pos: usize)
    requires
        pos <= s.len() <= usize::MAX,
    ensures
        spec_int_u64(s, pos) matches Some((_, e)) ==> pos < e <= s.len(),
{
    lemma_text_int(s, pos);
}

pub proof fn lemma_int_i32_bounds(s: Seq<char>, pos: usize)
    requires
        pos <= s.len() <= usize::MAX,
    ensures
        spec_int_i32(s, pos) matches Some((_, e)) ==> pos < e <= s.len(),
{
    lemma_text_int(s, pos);
    if pos < s.len() {
        lemma_text_int(s, (pos + 1) as usize);
    }
}

pub proof fn lemma_decimal_bounds(s: Seq<char>, pos: usize)
    requires
        pos <= s.len() <= usize::MAX,
    ensures
        spec_decimal(s, pos) matches Some((_, e)) ==> pos < e <= s.len(),
{
    lemma_text_int(s, pos);
    if pos < s.len() {
        lemma_text_int(s, (pos + 1) as usize);
    }
    let neg = spec_just(s, pos, '-') is Some;
    let p = if neg { (pos + 1) as usize } else { pos };
    if let Some(e1) = spec_text_int(s, p) {
        if e1 + 1 < s.len() {
            lemma_digits_end(s, (e1 + 1) as usize);
        }
    }
}

pub proof fn lemma_note_name_from(s: Seq<char>, pos: usize, i: int)
    requires
        pos <= s.len() <= usize::MAX,
        0 <= i,
    ensures
        spec_note_name_from(s, pos, i) matches Some((b, e)) ==> pos < e <= s.len() && 0 <= b <= 11,
    decreases note_names().len() - i,
{
    if i < note_names().len() {
        if spec_lit(s, pos, note_names()[i].0) is None {
            lemma_note_name_from(s, pos, i + 1);
        } else {
            assert(note_names()[i].0.len() > 0);
        }
    }
}

pub proof fn lemma_pitch_val_bounds(s: Seq<char>, pos: usize)
    requires
        pos <= s.len() <= usize::MAX,
    ensures
        spec_pitch_val(s, pos) matches Some((_, e)) ==> pos < e <= s.len(),
{
    lemma_note_name_from(s, pos, 0);
    if let Some((b, e)) = spec_note_name_from(s, pos, 0) {
        lemma_text_int(s, e);
    }
}

} // verus!

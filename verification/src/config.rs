//! The application's settings and how their values read.
use vstd::prelude::*;
use crate::ast::QuantizeMode;
use crate::parser::primitives::{chars_to_string, digits_val, is_digit};
use crate::parser::program::text_chars;
use crate::midi_import::all_digits;

verus! {

/// The settings read from the configuration file.
#[derive(Debug)]
pub struct AppConfig {
    pub mmn_directory: String,
    pub midi_port: Option<String>,
    pub default_quantize: Option<String>,
    pub max_auto_quantize: Option<usize>,
}

/// What `str::parse::<usize>` reads: an optional `+`, then at least one
/// digit and nothing else, within the range of `usize`.
pub open spec fn std_parse_usize(t: Seq<char>) -> Option<usize> {
    let ds = if t.len() > 0 && t[0] == '+' { t.drop_first() } else { t };
    if ds.len() == 0 || !all_digits(ds) {
        None
    } else if digits_val(ds, 0, ds.len() as int) <= usize::MAX {
        Some(digits_val(ds, 0, ds.len() as int) as usize)
    } else {
        None
    }
}

/// The default phrase setting: `auto` (or `AUTO`), a number of cycles, or 1
/// cycle when unset; `true` beside it when the value did not read and 1 was
/// taken instead.
pub open spec fn default_quantize_of(value: Option<Seq<char>>) -> (QuantizeMode, bool) {
    match value {
        None => (QuantizeMode::Fixed(1), false),
        Some(v) => if v == seq!['a', 'u', 't', 'o'] || v == seq!['A', 'U', 'T', 'O'] {
            (QuantizeMode::Auto, false)
        } else {
            match std_parse_usize(v) {
                Some(n) => (QuantizeMode::Fixed(n), false),
                None => (QuantizeMode::Fixed(1), true),
            }
        },
    }
}

fn parse_usize_chars(t: &Vec<char>) -> (r: Option<usize>)
    ensures
        r == std_parse_usize(t@),
{
    let n = t.len();
    let start: usize = if n > 0 && t[0] == '+' {
        1
    } else {
        0
    };
    let ghost ds = if t@.len() > 0 && t@[0] == '+' {
        t@.drop_first()
    } else {
        t@
    };
    assert(ds =~= t@.skip(start as int));
    if start == n {
        return None;
    }
    let mut v: usize = 0;
    let mut big = false;
    let mut i = start;
    while i < n
        invariant
            start <= i <= n,
            n == t@.len(),
            ds == t@.skip(start as int),
            ds == (if t@.len() > 0 && t@[0] == '+' { t@.drop_first() } else { t@ }),
            forall|k: int| start <= k < i ==> is_digit(#[trigger] t@[k]),
            !big ==> v == digits_val(ds, 0, (i - start) as int),
            big ==> digits_val(ds, 0, (i - start) as int) > usize::MAX,
        decreases n - i,
    {
        let c = t[i];
        proof {
            assert(ds[i - start] == c);
        }
        if !('0' <= c && c <= '9') {
            proof {
                assert(!is_digit(ds[i - start]));
                assert(!all_digits(ds));
            }
            return None;
        }
        let d: usize = (c as u32 - '0' as u32) as usize;
        if !big {
            if v > (usize::MAX - d) / 10 {
                proof {
                    assert(v * 10 + d > usize::MAX) by (nonlinear_arith)
                        requires
                            v > (usize::MAX - d) / 10,
                            d <= 9,
                    ;
                }
                big = true;
            } else {
                proof {
                    assert(v * 10 + d <= usize::MAX) by (nonlinear_arith)
                        requires
                            v <= (usize::MAX - d) / 10,
                            d <= 9,
                    ;
                }
                v = v * 10 + d;
            }
        } else {
            proof {
                let prev = digits_val(ds, 0, (i - start) as int);
                assert(digits_val(ds, 0, (i + 1 - start) as int) == prev * 10 + crate::parser::primitives::digit_val(ds[i - start]));
            }
        }
        i += 1;
    }
    proof {
        assert forall|k: int| 0 <= k < ds.len() implies is_digit(#[trigger] ds[k]) by {
            assert(ds[k] == t@[start + k]);
        }
        assert(all_digits(ds));
    }
    if big {
        None
    } else {
        Some(v)
    }
}

fn same(a: &Vec<char>, w: &[char]) -> (r: bool)
    ensures
        r == (a@ == w@),
{
    if a.len() != w.len() {
        return false;
    }
    let mut i: usize = 0;
    while i < a.len()
        invariant
            0 <= i <= a@.len(),
            a@.len() == w@.len(),
            forall|k: int| 0 <= k < i ==> a@[k] == w@[k],
        decreases a.len() - i,
    {
        if a[i] != w[i] {
            return false;
        }
        i += 1;
    }
    assert(a@ =~= w@);
    true
}

/// Reads the default phrase setting.
pub fn default_quantize(value: &Option<String>) -> (r: (QuantizeMode, bool))
    ensures
        r == default_quantize_of(match value {
            Some(v) => Some(v@),
            None => None,
        }),
{
    match value {
        None => (QuantizeMode::Fixed(1), false),
        Some(v) => {
            let t = text_chars(v.as_str());
            let lower = ['a', 'u', 't', 'o'];
            let upper = ['A', 'U', 'T', 'O'];
            assert(lower@ =~= seq!['a', 'u', 't', 'o']);
            assert(upper@ =~= seq!['A', 'U', 'T', 'O']);
            if same(&t, &lower) || same(&t, &upper) {
                return (QuantizeMode::Auto, false);
            }
            match parse_usize_chars(&t) {
                Some(n) => (QuantizeMode::Fixed(n), false),
                None => (QuantizeMode::Fixed(1), true),
            }
        },
    }
}

/// The part of a path after a leading `~/`, which names a place in the
/// home directory.
pub fn home_relative(path: &str) -> (r: Option<String>)
    ensures
        match r {
            Some(rest) => path@.len() >= 2 && path@[0] == '~' && path@[1] == '/' && rest@ == path@.skip(2),
            None => !(path@.len() >= 2 && path@[0] == '~' && path@[1] == '/'),
        },
{
    let t = text_chars(path);
    if t.len() >= 2 && t[0] == '~' && t[1] == '/' {
        let mut rest: Vec<char> = Vec::new();
        let mut i: usize = 2;
        while i < t.len()
            invariant
                2 <= i <= t@.len(),
                rest@ == t@.subrange(2, i as int),
            decreases t.len() - i,
        {
            rest.push(t[i]);
            proof {
                assert(t@.subrange(2, i + 1) =~= t@.subrange(2, i as int).push(t@[i as int]));
            }
            i += 1;
        }
        assert(rest@ =~= t@.skip(2));
        Some(chars_to_string(&rest))
    } else {
        None
    }
}

} // verus!

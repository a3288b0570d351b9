//! How many threads each inference session uses, from an optional
//! environment override and the machine's parallelism.
use vstd::prelude::*;

use crate::chars::{spec_is_ascii_digit, str_to_chars};

verus! {

/// The value of a string of ASCII digits.
pub open spec fn digits_value(d: Seq<char>) -> nat
    decreases d.len(),
{
    if d.len() == 0 {
        0
    } else {
        digits_value(d.drop_last()) * 10 + ((d.last() as u32) - ('0' as u32)) as nat
    }
}

/// Every character of `d` is an ASCII digit.
pub open spec fn all_digits(d: Seq<char>) -> bool {
    forall|i: int| 0 <= i < d.len() ==> spec_is_ascii_digit(#[trigger] d[i])
}

/// `s` parsed as a `usize` the way `str::parse::<usize>` does: an optional
/// `+`, then one or more ASCII digits, with a value that fits.
pub open spec fn spec_parse_usize(s: Seq<char>) -> Option<nat> {
    let body = if s.len() > 0 && s[0] == '+' {
        s.skip(1)
    } else {
        s
    };
    if body.len() == 0 || !all_digits(body) {
        None
    } else if digits_value(body) <= usize::MAX {
        Some(digits_value(body))
    } else {
        None
    }
}

proof fn lemma_digits_value_monotone(d: Seq<char>, n: int)
    requires
        0 <= n <= d.len(),
        forall|i: int| 0 <= i < d.len() ==> spec_is_ascii_digit(#[trigger] d[i]),
    ensures
        digits_value(d.take(n)) <= digits_value(d),
    decreases d.len() - n,
{
    if n < d.len() {
        lemma_digits_value_monotone(d, n + 1);
        assert(d.take(n + 1).drop_last() =~= d.take(n));
    } else {
        assert(d.take(n) =~= d);
    }
}

/// Parses a `usize` (see [`spec_parse_usize`]).
pub fn parse_usize(s: &str) -> (r: Option<usize>)
    ensures
        match (r, spec_parse_usize(s@)) {
            (Some(v), Some(n)) => v == n,
            (None, None) => true,
            _ => false,
        },
{
    let chars = str_to_chars(s);
    let start: usize = if chars.len() > 0 && chars[0] == '+' {
        1
    } else {
        0
    };
    let ghost body = if s@.len() > 0 && s@[0] == '+' {
        s@.skip(1)
    } else {
        s@
    };
    proof {
        assert(body =~= chars@.skip(start as int));
    }
    if start >= chars.len() {
        return None;
    }
    let mut v: usize = 0;
    let mut i: usize = start;
    while i < chars.len()
        invariant
            start <= i <= chars@.len(),
            start < chars@.len(),
            chars@ == s@,
            body == (if s@.len() > 0 && s@[0] == '+' {
                s@.skip(1)
            } else {
                s@
            }),
            body =~= chars@.skip(start as int),
            forall|k: int| 0 <= k < i - start ==> spec_is_ascii_digit(#[trigger] body[k]),
            v == digits_value(body.take(i - start)),
        decreases chars.len() - i,
    {
        let c = chars[i];
        if !('0' <= c && c <= '9') {
            proof {
                assert(!spec_is_ascii_digit(body[i - start]));
                assert(!all_digits(body));
            }
            return None;
        }
        let d = (c as u32 - '0' as u32) as usize;
        proof {
            assert(body.take(i - start + 1).drop_last() =~= body.take(i - start));
            assert(body.take(i - start + 1).last() == c);
        }
        if v > (usize::MAX - d) / 10 {
            proof {
                assert(v * 10 + d > usize::MAX) by (nonlinear_arith)
                    requires
                        v > (usize::MAX - d) / 10,
                        d <= 9,
                ;
                let rest = body;
                if all_digits(rest) {
                    lemma_digits_value_monotone(rest, i - start + 1);
                }
            }
            return None;
        }
        proof {
            assert(v * 10 + d <= usize::MAX) by (nonlinear_arith)
                requires
                    v <= (usize::MAX - d) / 10,
                    d <= 9,
            ;
        }
        v = v * 10 + d;
        i = i + 1;
    }
    proof {
        assert(body.take(body.len() as int) =~= body);
    }
    Some(v)
}

/// `v` clamped to `[lo, hi]`.
pub open spec fn clamp_nat(v: int, lo: int, hi: int) -> int {
    if v < lo {
        lo
    } else if v > hi {
        hi
    } else {
        v
    }
}

/// Threads per inference session: the override, when it parses, clamped to
/// `[1, 32]`; else the logical CPUs (2 when unknown) divided by the number
/// of sessions run at once (at least 1), clamped to `[1, 8]`.
pub open spec fn spec_intra_threads(env_value: Option<Seq<char>>, cpus: Option<usize>, pool: int) -> int {
    match (match env_value {
        Some(raw) => spec_parse_usize(raw),
        None => None,
    }) {
        Some(n) => clamp_nat(n as int, 1, 32),
        None => {
            let c = match cpus {
                Some(c) => c as int,
                None => 2,
            };
            let p = if pool < 1 {
                1
            } else {
                pool
            };
            clamp_nat(c / p, 1, 8)
        },
    }
}

/// Threads per inference session (see [`spec_intra_threads`]); the caller
/// hands in the `NDLOCR_INTRA_THREADS` variable and the available
/// parallelism.
pub fn intra_threads(env_value: Option<&str>, cpus: Option<usize>, pool_parallelism: usize) -> (r:
    usize)
    ensures
        r == spec_intra_threads(
            match env_value {
                Some(s) => Some(s@),
                None => None,
            },
            cpus,
            pool_parallelism as int,
        ),
{
    match env_value {
        Some(raw) => match parse_usize(raw) {
            Some(n) => {
                return if n < 1 {
                    1
                } else if n > 32 {
                    32
                } else {
                    n
                };
            },
            None => {},
        },
        None => {},
    }
    let c = match cpus {
        Some(c) => c,
        None => 2,
    };
    let p = if pool_parallelism < 1 {
        1
    } else {
        pool_parallelism
    };
    let q = c / p;
    if q < 1 {
        1
    } else if q > 8 {
        8
    } else {
        q
    }
}

/// Recognition sessions run at once: the override, when it parses, clamped
/// to `[1, 4]`; else 1.
pub open spec fn spec_parseq_parallelism(env_value: Option<Seq<char>>) -> int {
    match (match env_value {
        Some(raw) => spec_parse_usize(raw),
        None => None,
    }) {
        Some(n) => clamp_nat(n as int, 1, 4),
        None => 1,
    }
}

/// Recognition sessions run at once (see [`spec_parseq_parallelism`]); the
/// caller hands in the `NDLOCR_PARSEQ_PARALLELISM` variable.
pub fn parseq_parallelism(env_value: Option<&str>) -> (r: usize)
    ensures
        r == spec_parseq_parallelism(
            match env_value {
                Some(s) => Some(s@),
                None => None,
            },
        ),
{
    match env_value {
        Some(raw) => match parse_usize(raw) {
            Some(n) => if n < 1 {
                1
            } else if n > 4 {
                4
            } else {
                n
            },
            None => 1,
        },
        None => 1,
    }
}

} // verus!

//! Experiment definitions: bucket labels and their weight ratio.
use vstd::prelude::*;
use vstd::string::*;
use crate::text::{split_on, split_text};

verus! {

pub open spec fn is_digit(c: char) -> bool {
    '0' <= c && c <= '9'
}

pub open spec fn all_digits(d: Seq<char>) -> bool {
    d.len() > 0 && forall|i: int| 0 <= i < d.len() ==> is_digit(#[trigger] d[i])
}

/// The value of a run of decimal digits.
pub open spec fn digits_value(d: Seq<char>) -> int
    decreases d.len(),
{
    if d.len() == 0 {
        0
    } else {
        digits_value(d.drop_last()) * 10 + (d.last() as int - '0' as int)
    }
}

/// A decimal integer as `i32`'s `FromStr` reads it: an optional `+` or `-`,
/// then at least one digit, with a value in `i32`'s range.
pub open spec fn int_of(s: Seq<char>) -> Option<int> {
    let signed = s.len() > 0 && (s[0] == '+' || s[0] == '-');
    let d = if signed { s.drop_first() } else { s };
    let v = if s.len() > 0 && s[0] == '-' { -digits_value(d) } else { digits_value(d) };
    if all_digits(d) && i32::MIN <= v <= i32::MAX {
        Some(v)
    } else {
        None
    }
}

/// A weight ratio such as `7:3:2`: the integers between the colons, or
/// `None` where one of them is not an integer.
pub open spec fn weights_of(s: Seq<char>) -> Option<Seq<int>> {
    let parts = split_on(s, ':');
    if forall|i: int| 0 <= i < parts.len() ==> (#[trigger] int_of(parts[i])) is Some {
        Some(parts.map_values(|p: Seq<char>| int_of(p).unwrap()))
    } else {
        None
    }
}

/// Index of the first piece that is not an integer, or -1.
pub open spec fn first_bad(parts: Seq<Seq<char>>) -> int
    decreases parts.len(),
{
    if parts.len() == 0 {
        -1
    } else if int_of(parts[0]) is None {
        0
    } else {
        let r = first_bad(parts.drop_first());
        if r < 0 {
            -1
        } else {
            r + 1
        }
    }
}

/// The first token of a weight ratio that is not an integer.
pub open spec fn bad_token(s: Seq<char>) -> Seq<char> {
    split_on(s, ':')[first_bad(split_on(s, ':'))]
}

proof fn lemma_first_bad(parts: Seq<Seq<char>>, i: int)
    requires
        0 <= i < parts.len(),
        forall|j: int| 0 <= j < i ==> (#[trigger] int_of(parts[j])) is Some,
        int_of(parts[i]) is None,
    ensures
        first_bad(parts) == i,
    decreases i,
{
    if i > 0 {
        assert forall|j: int| 0 <= j < i - 1 implies (#[trigger] int_of(parts.drop_first()[j])) is Some by {
            assert(parts.drop_first()[j] == parts[j + 1]);
        }
        assert(int_of(parts[0]) is Some);
        lemma_first_bad(parts.drop_first(), i - 1);
    }
}

proof fn lemma_digits_nonneg(d: Seq<char>)
    requires
        forall|i: int| 0 <= i < d.len() ==> is_digit(#[trigger] d[i]),
    ensures
        digits_value(d) >= 0,
    decreases d.len(),
{
    if d.len() > 0 {
        lemma_digits_nonneg(d.drop_last());
    }
}

/// Reads a decimal integer as `i32`'s `FromStr` does.
pub fn parse_i32(s: &str) -> (r: Option<i32>)
    ensures
        match r {
            Some(v) => int_of(s@) == Some(v as int),
            None => int_of(s@) is None,
        },
{
    let n = s.unicode_len();
    let neg = n > 0 && s.get_char(0) == '-';
    let signed = n > 0 && (s.get_char(0) == '+' || s.get_char(0) == '-');
    let start: usize = if signed { 1 } else { 0 };
    let ghost d = if signed { s@.drop_first() } else { s@ };
    assert(signed == (s@.len() > 0 && (s@[0] == '+' || s@[0] == '-')));
    assert(neg == (s@.len() > 0 && s@[0] == '-'));
    assert(d =~= s@.subrange(start as int, n as int));
    if start == n {
        return None;
    }
    let mut acc: u64 = 0;
    let mut over = false;
    let mut i: usize = start;
    while i < n
        invariant
            n == s@.len(),
            start <= i <= n,
            d == s@.subrange(start as int, n as int),
            d == (if s@.len() > 0 && (s@[0] == '+' || s@[0] == '-') { s@.drop_first() } else { s@ }),
            forall|k: int| 0 <= k < i - start ==> is_digit(#[trigger] d[k]),
            !over ==> acc == digits_value(d.subrange(0, i - start)) && acc <= 2147483648,
            over ==> digits_value(d.subrange(0, i - start)) > 2147483648,
        decreases n - i,
    {
        let c = s.get_char(i);
        assert(d[i - start] == c);
        if !('0' <= c && c <= '9') {
            assert(!all_digits(d));
            return None;
        }
        let ghost p = d.subrange(0, i - start);
        let ghost q = d.subrange(0, i + 1 - start);
        assert(q.drop_last() =~= p);
        proof {
            lemma_digits_nonneg(p);
        }
        if !over {
            let next: u64 = acc * 10 + (c as u64 - '0' as u64);
            if next > 2147483648 {
                over = true;
            } else {
                acc = next;
            }
        }
        i = i + 1;
    }
    assert(d.subrange(0, n - start) =~= d);
    assert(all_digits(d));
    if over {
        return None;
    }
    if neg {
        Some((0i64 - acc as i64) as i32)
    } else if acc <= 2147483647 {
        Some(acc as i32)
    } else {
        None
    }
}

/// Reads a weight ratio such as `7:3:2`; where a token is not an integer,
/// gives back the first such token.
pub fn parse_weights(s: &str) -> (r: Result<Vec<i32>, String>)
    ensures
        match r {
            Ok(ws) => weights_of(s@) == Some(ws@.map_values(|w: i32| w as int)),
            Err(t) => weights_of(s@) is None && t@ == bad_token(s@),
        },
{
    let parts = split_text(s, ':');
    let ghost pv = parts@.map_values(|p: String| p@);
    let mut ws: Vec<i32> = Vec::new();
    let mut i: usize = 0;
    while i < parts.len()
        invariant
            pv == parts@.map_values(|p: String| p@),
            pv == split_on(s@, ':'),
            i <= parts.len(),
            ws@.len() == i,
            forall|k: int| 0 <= k < i ==> (#[trigger] int_of(pv[k])) == Some(ws@[k] as int),
        decreases parts.len() - i,
    {
        assert(pv[i as int] == parts[i as int]@);
        match parse_i32(parts[i].as_str()) {
            Some(v) => {
                ws.push(v);
            },
            None => {
                assert(int_of(pv[i as int]) is None);
                proof {
                    lemma_first_bad(pv, i as int);
                }
                let t = parts[i].clone();
                return Err(t);
            },
        }
        i = i + 1;
    }
    assert(ws@.map_values(|w: i32| w as int) =~= pv.map_values(|p: Seq<char>| int_of(p).unwrap()));
    Ok(ws)
}

} // verus!

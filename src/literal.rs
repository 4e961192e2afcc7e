use vstd::prelude::*;
use vstd::string::*;
use crate::model::{all_digits, digit_value, is_digit, digits_value, literal_digits, literal_value};

verus! {

/// A prefix of a run of digits never stands for more than the whole run.
proof fn lemma_prefix_value_le(s: Seq<char>, k: int)
    requires
        0 <= k <= s.len(),
    ensures
        digits_value(s.subrange(0, k)) <= digits_value(s),
    decreases s.len(),
{
    if k < s.len() {
        assert(s.drop_last().subrange(0, k) =~= s.subrange(0, k));
        lemma_prefix_value_le(s.drop_last(), k);
    } else {
        assert(s.subrange(0, k) =~= s);
    }
}

/// Reads a token as a cell: an optional `+` followed by decimal digits whose
/// value fits in a `usize`. Anything else is not a literal.
pub fn parse_literal(t: &str) -> (r: Option<usize>)
    ensures
        r == literal_value(t@),
{
    let n = t.unicode_len();
    let ghost s = t@;
    let mut start: usize = 0;
    if n > 0 && t.get_char(0) == '+' {
        start = 1;
    }
    let ghost d = s.subrange(start as int, n as int);
    assert(literal_digits(s) =~= d);
    if start >= n {
        return None;
    }
    let mut v: usize = 0;
    let mut i: usize = start;
    while i < n
        invariant
            start <= i <= n,
            n == s.len(),
            s == t@,
            d == s.subrange(start as int, n as int),
            literal_digits(s) == d,
            d.len() > 0,
            all_digits(s.subrange(start as int, i as int)),
            v as nat == digits_value(s.subrange(start as int, i as int)),
        decreases n - i,
    {
        let c = t.get_char(i);
        let ghost pre = s.subrange(start as int, i as int + 1);
        assert(pre.drop_last() =~= s.subrange(start as int, i as int));
        assert(d.subrange(0, i - start + 1) =~= pre);
        if c < '0' || c > '9' {
            assert(d[i - start] == c);
            assert(!is_digit(d[i - start]));
            assert(!all_digits(d));
            return None;
        }
        let digit = (c as u32 - '0' as u32) as usize;
        proof {
            lemma_prefix_value_le(d, i - start + 1);
            assert(pre.last() == c);
            assert(digit_value(c) == digit);
            assert(digits_value(pre) == v * 10 + digit);
        }
        match v.checked_mul(10) {
            None => {
                return None;
            },
            Some(x) => match x.checked_add(digit) {
                None => {
                    return None;
                },
                Some(y) => {
                    v = y;
                },
            },
        }
        i = i + 1;
    }
    assert(s.subrange(start as int, i as int) =~= d);
    Some(v)
}

} // verus!

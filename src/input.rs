//! Reading a player's typed choice of a river position.

use vstd::prelude::*;
use crate::card::InvalidInput;

verus! {

/// Whether `c` is a decimal digit.
pub open spec fn is_digit(c: char) -> bool {
    '0' <= c && c <= '9'
}

/// Whether every character of `s` is a decimal digit.
pub open spec fn all_digits(s: Seq<char>) -> bool {
    forall|i: int| 0 <= i < s.len() ==> is_digit(#[trigger] s[i])
}

/// The number that the decimal digits of `s` write.
pub open spec fn digits_value(s: Seq<char>) -> int
    decreases s.len(),
{
    if s.len() == 0 {
        0
    } else {
        digits_value(s.drop_last()) * 10 + (s.last() as int - '0' as int)
    }
}

/// The digits of a token: what follows its one optional leading `+`.
pub open spec fn unsigned_part(s: Seq<char>) -> Seq<char> {
    if s.len() > 0 && s[0] == '+' {
        s.skip(1)
    } else {
        s
    }
}

/// The position a typed token names, when it is one: an optional `+`, then
/// a nonempty run of decimal digits whose number is below `limit`.
pub open spec fn index_of_token(s: Seq<char>, limit: int) -> Option<int> {
    let d = unsigned_part(s);
    if d.len() > 0 && all_digits(d) && digits_value(d) < limit {
        Some(digits_value(d))
    } else {
        None
    }
}

/// Reading more digits never makes the number smaller.
proof fn lemma_digits_grow(s: Seq<char>, i: int)
    requires
        0 <= i <= s.len(),
        all_digits(s),
    ensures
        0 <= digits_value(s.take(i)) <= digits_value(s),
    decreases s.len() - i,
{
    if i < s.len() {
        lemma_digits_grow(s, i + 1);
        let t = s.take(i + 1);
        assert(t.drop_last() =~= s.take(i));
        assert(is_digit(s[i]));
        lemma_digits_nonneg(s.take(i));
    } else {
        assert(s.take(i) =~= s);
        lemma_digits_nonneg(s);
    }
}

proof fn lemma_digits_nonneg(s: Seq<char>)
    requires
        all_digits(s),
    ensures
        0 <= digits_value(s),
    decreases s.len(),
{
    if s.len() > 0 {
        assert(is_digit(s.last()));
        lemma_digits_nonneg(s.drop_last());
    }
}

/// Reads a typed river position: an optional `+`, then a nonempty run of
/// decimal digits naming a number below `limit`. Anything else is refused,
/// to be asked again.
pub fn parse_index(token: &str, limit: usize) -> (r: Result<usize, InvalidInput>)
    ensures
        r is Ok <==> index_of_token(token@, limit as int) is Some,
        r is Ok ==> r->Ok_0 as int == index_of_token(token@, limit as int)->Some_0,
{
    let ghost s = token@;
    let n = token.unicode_len();
    let start: usize = if n > 0 && token.get_char(0) == '+' {
        1
    } else {
        0
    };
    let ghost d = unsigned_part(s);
    proof {
        assert(d =~= s.skip(start as int));
    }
    if n == start || limit == 0 {
        proof {
            if all_digits(d) {
                lemma_digits_nonneg(d);
            }
        }
        return Err(InvalidInput);
    }
    let mut v: u128 = 0;
    let mut i: usize = start;
    proof {
        assert(d.take(0) =~= Seq::<char>::empty());
    }
    while i < n
        invariant
            n == s.len(),
            s == token@,
            start <= i <= n,
            d == s.skip(start as int),
            d == unsigned_part(s),
            all_digits(d.take(i - start)),
            v as int == digits_value(d.take(i - start)),
            v < limit,
        decreases n - i,
    {
        let c = token.get_char(i);
        proof {
            assert(d[i - start] == c);
        }
        if !('0' <= c && c <= '9') {
            proof {
                assert(!is_digit(d[i - start]));
            }
            return Err(InvalidInput);
        }
        let d_val = (c as u32 - '0' as u32) as u128;
        proof {
            let t = d.take(i - start + 1);
            assert(t.drop_last() =~= d.take(i - start));
            assert(t.last() == c);
        }
        v = v * 10 + d_val;
        i = i + 1;
        if v >= limit as u128 {
            proof {
                if all_digits(d) {
                    lemma_digits_grow(d, i - start);
                }
            }
            return Err(InvalidInput);
        }
    }
    proof {
        assert(d.take(n - start) =~= d);
    }
    Ok(v as usize)
}

} // verus!

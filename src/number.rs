use vstd::prelude::*;

use crate::ast::OrbitNumber;
use crate::error::ParseError;
use crate::grammar::{
    all_digits, digits_value, exponent_rest, float_text, is_fraction_text, mantissa_end,
    number_value, sign_len,
};
use crate::lexer::{digits_end, is_digit, lemma_digits_end};
use crate::span::Span;
use crate::text::chars_of;

verus! {

/// 2^63: the magnitude of the least `i64`.
const LIMIT: u128 = 0x8000_0000_0000_0000;

proof fn lemma_digits_nonneg(s: Seq<char>)
    requires
        forall|i: int| 0 <= i < s.len() ==> '0' <= #[trigger] s[i] <= '9',
    ensures
        digits_value(s) >= 0,
    decreases s.len(),
{
    if s.len() > 0 {
        lemma_digits_nonneg(s.drop_last());
    }
}

proof fn lemma_digits_prefix(s: Seq<char>, m: int)
    requires
        0 <= m <= s.len(),
        forall|i: int| 0 <= i < s.len() ==> '0' <= #[trigger] s[i] <= '9',
    ensures
        digits_value(s.take(m)) <= digits_value(s),
    decreases s.len(),
{
    if m < s.len() {
        lemma_digits_prefix(s.drop_last(), m);
        lemma_digits_nonneg(s.drop_last());
        assert(s.drop_last().take(m) =~= s.take(m));
    } else {
        assert(s.take(m) =~= s);
    }
}

/// The first index at or after `k` whose character is not a digit.
fn skip_digits(cs: &Vec<char>, k: usize) -> (r: usize)
    requires
        k <= cs.len(),
    ensures
        r == digits_end(cs@, k as int),
        k <= r <= cs.len(),
{
    let mut i = k;
    while i < cs.len() && '0' <= cs[i] && cs[i] <= '9'
        invariant
            k <= i <= cs.len(),
            digits_end(cs@, i as int) == digits_end(cs@, k as int),
        decreases cs.len() - i,
    {
        i = i + 1;
    }
    i
}

/// Whether `cs` is decimal float text.
fn is_float(cs: &Vec<char>) -> (r: bool)
    ensures
        r == float_text(cs@),
{
    let n = cs.len();
    let s: usize = if n > 0 && (cs[0] == '-' || cs[0] == '+') { 1 } else { 0 };
    let a = skip_digits(cs, s);
    let m = if a < n && cs[a] == '.' { skip_digits(cs, a + 1) } else { a };
    assert(m == mantissa_end(cs@, s as int));
    if !(s < a || a + 1 < m) {
        return false;
    }
    if m == n {
        return true;
    }
    if cs[m] != 'e' && cs[m] != 'E' {
        return false;
    }
    let c = if m + 1 < n && (cs[m + 1] == '+' || cs[m + 1] == '-') { m + 2 } else { m + 1 };
    assert(exponent_rest(cs@, m as int) == (c < n && digits_end(cs@, c as int) == n));
    c < n && skip_digits(cs, c) == n
}

/// Converts the text of a number into a number.
pub fn parse_number_literal(raw: &String, span: Span) -> (r: Result<OrbitNumber, ParseError>)
    ensures
        match number_value(raw@, span) {
            Ok(n) => r is Ok && r->Ok_0@ == n,
            Err(e) => r is Err && r->Err_0@ == e,
        },
{
    let cs = chars_of(raw.as_str());
    let mut k: usize = 0;
    let mut fraction = false;
    while k < cs.len()
        invariant
            cs@ == raw@,
            k <= cs.len(),
            fraction == exists|j: int| 0 <= j < k && (#[trigger] cs@[j] == '.' || cs@[j] == 'e' || cs@[j] == 'E'),
        decreases cs.len() - k,
    {
        if cs[k] == '.' || cs[k] == 'e' || cs[k] == 'E' {
            fraction = true;
        }
        k = k + 1;
    }
    proof {
        if fraction {
            let j = choose|j: int| 0 <= j < cs.len() && (#[trigger] cs@[j] == '.' || cs@[j] == 'e' || cs@[j] == 'E');
            if cs@[j] == '.' {
                assert(raw@.contains('.'));
            } else if cs@[j] == 'e' {
                assert(raw@.contains('e'));
            } else {
                assert(raw@.contains('E'));
            }
        } else {
            assert(!raw@.contains('.'));
            assert(!raw@.contains('e'));
            assert(!raw@.contains('E'));
        }
    }
    if fraction {
        if is_float(&cs) {
            return Ok(OrbitNumber::Float(raw.clone()));
        } else {
            return Err(ParseError::new("invalid float literal", span));
        }
    }
    let negative = cs.len() > 0 && cs[0] == '-';
    let start: usize = if negative { 1 } else { 0 };
    let ghost digits = cs@.subrange(start as int, cs.len() as int);
    proof {
        if negative {
            assert(digits =~= raw@.drop_first());
        } else {
            assert(digits =~= raw@);
        }
    }
    if start >= cs.len() {
        return Err(ParseError::new("invalid integer literal", span));
    }
    let mut acc: u128 = 0;
    let mut k: usize = start;
    while k < cs.len()
        invariant
            cs@ == raw@,
            start <= k <= cs.len(),
            digits == cs@.subrange(start as int, cs.len() as int),
            !is_fraction_text(raw@),
            negative <==> (raw@.len() > 0 && raw@[0] == '-'),
            negative ==> digits == raw@.drop_first(),
            !negative ==> digits == raw@,
            forall|i: int| start <= i < k ==> '0' <= #[trigger] cs@[i] <= '9',
            acc == digits_value(cs@.subrange(start as int, k as int)),
            acc <= LIMIT,
        decreases cs.len() - k,
    {
        let c = cs[k];
        proof {
            assert(cs@.subrange(start as int, k + 1).drop_last() =~= cs@.subrange(start as int, k as int));
        }
        if c < '0' || c > '9' {
            proof {
                assert(digits[k - start] == c);
                assert(!all_digits(digits));
            }
            return Err(ParseError::new("invalid integer literal", span));
        }
        let d = (c as u32 - '0' as u32) as u128;
        let next = acc * 10 + d;
        if next > LIMIT {
            proof {
                assert(digits.take(k + 1 - start) =~= cs@.subrange(start as int, k + 1));
                if all_digits(digits) {
                    lemma_digits_prefix(digits, k + 1 - start);
                }
            }
            return Err(ParseError::new("invalid integer literal", span));
        }
        acc = next;
        k = k + 1;
    }
    proof {
        assert(digits =~= cs@.subrange(start as int, k as int));
        assert(all_digits(digits));
    }
    if negative {
        if acc == LIMIT {
            Ok(OrbitNumber::Integer(i64::MIN))
        } else {
            Ok(OrbitNumber::Integer(-(acc as i64)))
        }
    } else if acc > i64::MAX as u128 {
        Err(ParseError::new("invalid integer literal", span))
    } else {
        Ok(OrbitNumber::Integer(acc as i64))
    }
}

} // verus!

use vstd::prelude::*;

use crate::lexer::is_digit;

verus! {

/// The value of a sequence of decimal digits.
pub open spec fn decimal(ds: Seq<char>) -> int
    decreases ds.len(),
{
    if ds.len() == 0 {
        0
    } else {
        decimal(ds.drop_last()) * 10 + (ds.last() as int - '0' as int)
    }
}

pub open spec fn all_digits(ds: Seq<char>) -> bool {
    ds.len() > 0 && forall|k: int| 0 <= k < ds.len() ==> is_digit(#[trigger] ds[k])
}

/// The 32-bit value of an integer literal: decimal digits after an optional
/// minus sign, when the value fits.
pub open spec fn int_value(lit: Seq<char>) -> Option<i32> {
    if lit.len() > 0 && lit[0] == '-' && all_digits(lit.drop_first()) {
        let v = -decimal(lit.drop_first());
        if i32::MIN <= v { Some(v as i32) } else { None }
    } else if all_digits(lit) {
        let v = decimal(lit);
        if v <= i32::MAX { Some(v as i32) } else { None }
    } else {
        None
    }
}

fn decimal_digit_value(c: char) -> (r: Option<u32>)
    ensures
        r == (if is_digit(c) { Some((c as int - '0' as int) as u32) } else { None::<u32> }),
{
    if '0' <= c && c <= '9' {
        Some(c as u32 - '0' as u32)
    } else {
        None
    }
}

proof fn lemma_decimal_prefix_grows(ds: Seq<char>, i: int)
    requires
        0 <= i <= ds.len(),
        forall|k: int| 0 <= k < ds.len() ==> is_digit(#[trigger] ds[k]),
    ensures
        decimal(ds.subrange(0, i)) <= decimal(ds),
    decreases ds.len() - i,
{
    if i < ds.len() {
        lemma_decimal_prefix_grows(ds, i + 1);
        assert(ds.subrange(0, i + 1).drop_last() =~= ds.subrange(0, i));
        assert(decimal(ds.subrange(0, i)) >= 0) by {
            lemma_decimal_nonneg(ds.subrange(0, i));
        }
    } else {
        assert(ds.subrange(0, i) =~= ds);
    }
}

proof fn lemma_decimal_nonneg(ds: Seq<char>)
    requires
        forall|k: int| 0 <= k < ds.len() ==> is_digit(#[trigger] ds[k]),
    ensures
        decimal(ds) >= 0,
    decreases ds.len(),
{
    if ds.len() > 0 {
        lemma_decimal_nonneg(ds.drop_last());
    }
}

/// Reads an integer literal: decimal digits after an optional minus sign.
/// `None` when it has another form or its value does not fit in 32 bits.
pub fn parse_integer(lit: &str) -> (r: Option<i32>)
    ensures
        r == int_value(lit@),
{
    let n = lit.unicode_len();
    let neg = n > 0 && lit.get_char(0) == '-';
    let start: usize = if neg { 1 } else { 0 };
    let ghost ds = lit@.subrange(start as int, n as int);
    proof {
        if neg {
            assert(!is_digit(lit@[0]));
            assert(!all_digits(lit@));
            assert(ds =~= lit@.drop_first());
        } else {
            assert(ds =~= lit@);
        }
    }
    if start >= n {
        return None;
    }
    let mut v: u64 = 0;
    let mut i: usize = start;
    while i < n
        invariant
            n == lit@.len(),
            start < n,
            ds == lit@.subrange(start as int, n as int),
            neg ==> lit@.len() > 0 && lit@[0] == '-' && ds == lit@.drop_first() && !all_digits(lit@),
            !neg ==> ds == lit@ && !(lit@.len() > 0 && lit@[0] == '-'),
            start <= i <= n,
            v == decimal(ds.subrange(0, i - start)),
            v <= 2147483648,
            forall|k: int| 0 <= k < i - start ==> is_digit(#[trigger] ds[k]),
        decreases n - i,
    {
        let c = lit.get_char(i);
        match decimal_digit_value(c) {
            None => {
                assert(!is_digit(ds[i - start]));
                assert(!all_digits(ds));
                return None;
            },
            Some(d) => {
                proof {
                    assert(ds.subrange(0, i + 1 - start).drop_last() =~= ds.subrange(0, i - start));
                }
                v = v * 10 + d as u64;
                i = i + 1;
                if v > 2147483648 {
                    proof {
                        if all_digits(ds) {
                            lemma_decimal_prefix_grows(ds, i - start);
                        }
                    }
                    return None;
                }
            },
        }
    }
    proof {
        assert(ds.subrange(0, n - start) =~= ds);
    }
    if neg {
        if v <= 2147483648 {
            Some((0 - v as i64) as i32)
        } else {
            None
        }
    } else if v <= 2147483647 {
        Some(v as i32)
    } else {
        None
    }
}

} // verus!

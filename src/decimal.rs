//! ASCII decimal numbers as they appear in length and count lines.
use vstd::prelude::*;

verus! {

/// The ASCII code of `'0'`.
pub const ZERO_DIGIT: u8 = 48;

/// Whether `b` is an ASCII decimal digit.
pub open spec fn is_digit(b: u8) -> bool {
    48 <= b <= 57
}

/// Whether every byte of `s` is a decimal digit.
pub open spec fn all_digits(s: Seq<u8>) -> bool {
    forall|i: int| 0 <= i < s.len() ==> is_digit(#[trigger] s[i])
}

/// The value of a run of decimal digits, most significant first.
pub open spec fn digits_value(s: Seq<u8>) -> nat
    decreases s.len(),
{
    if s.len() == 0 {
        0
    } else {
        digits_value(s.drop_last()) * 10 + (s.last() - 48) as nat
    }
}

/// The canonical decimal form of `n`: no sign, no leading zeros.
pub open spec fn decimal(n: nat) -> Seq<u8>
    decreases n,
{
    if n < 10 {
        seq![(n + 48) as u8]
    } else {
        decimal(n / 10).push((n % 10 + 48) as u8)
    }
}

/// The canonical form reads back as the number it was written from.
pub proof fn lemma_decimal_reads_back(n: nat)
    ensures
        decimal(n).len() >= 1,
        all_digits(decimal(n)),
        digits_value(decimal(n)) == n,
    decreases n,
{
    let d = decimal(n);
    if n >= 10 {
        lemma_decimal_reads_back(n / 10);
        assert(d.drop_last() =~= decimal(n / 10));
        assert(n / 10 * 10 + n % 10 == n) by (nonlinear_arith);
    } else {
        assert(d.drop_last() =~= Seq::<u8>::empty());
        assert(digits_value(d.drop_last()) == 0);
    }
}

/// Appends the decimal form of `n` to `out`.
pub fn push_decimal(out: &mut Vec<u8>, n: usize)
    ensures
        final(out)@ == old(out)@ + decimal(n as nat),
    decreases n,
{
    if n < 10 {
        out.push(n as u8 + ZERO_DIGIT);
        assert(final(out)@ =~= old(out)@ + decimal(n as nat));
    } else {
        push_decimal(out, n / 10);
        out.push((n % 10) as u8 + ZERO_DIGIT);
        assert(final(out)@ =~= old(out)@ + decimal(n as nat));
    }
}

/// The value of `s` read as decimal digits, when `s` is a non-empty run of
/// digits whose value fits in `usize`.
pub open spec fn parsed_len(s: Seq<u8>) -> Option<nat> {
    if s.len() > 0 && all_digits(s) && digits_value(s) <= usize::MAX {
        Some(digits_value(s))
    } else {
        None
    }
}

proof fn lemma_digits_value_monotone(s: Seq<u8>, k: int)
    requires
        0 <= k <= s.len(),
        all_digits(s),
    ensures
        digits_value(s.subrange(0, k)) <= digits_value(s),
    decreases s.len(),
{
    if k < s.len() {
        assert(s.drop_last() =~= s.subrange(0, s.len() - 1));
        assert(s.drop_last().subrange(0, k) =~= s.subrange(0, k));
        if k < s.len() - 1 {
            lemma_digits_value_monotone(s.drop_last(), k);
        } else {
            assert(s.drop_last() =~= s.subrange(0, k));
        }
        let a = digits_value(s.drop_last());
        let l = (s.last() - 48) as nat;
        assert(a <= a * 10 + l) by (nonlinear_arith);
        assert(digits_value(s) == a * 10 + l);
    } else {
        assert(s.subrange(0, k) =~= s);
    }
}

/// Reads `b[start..end]` as a decimal length or count.
pub fn parse_decimal(b: &[u8], start: usize, end: usize) -> (r: Option<usize>)
    requires
        start <= end <= b@.len(),
    ensures
        r matches Some(v) ==> parsed_len(b@.subrange(start as int, end as int)) == Some(v as nat),
        r is None ==> parsed_len(b@.subrange(start as int, end as int)) is None,
{
    let ghost s = b@.subrange(start as int, end as int);
    if start == end {
        return None;
    }
    let mut acc: usize = 0;
    let mut i: usize = start;
    while i < end
        invariant
            start <= i <= end <= b@.len(),
            s == b@.subrange(start as int, end as int),
            all_digits(s.subrange(0, i - start)),
            acc as nat == digits_value(s.subrange(0, i - start)),
        decreases end - i,
    {
        let c = b[i];
        if c < 48 || c > 57 {
            assert(!is_digit(s[i - start]));
            return None;
        }
        let d = (c - 48) as usize;
        let ghost next = s.subrange(0, i + 1 - start);
        assert(next.drop_last() =~= s.subrange(0, i - start));
        assert(next.last() == c);
        if acc > (usize::MAX - d) / 10 {
            proof {
                assert(acc * 10 + d > usize::MAX) by (nonlinear_arith)
                    requires
                        acc > (usize::MAX - d) / 10,
                        d <= 9,
                ;
                if all_digits(s) {
                    lemma_digits_value_monotone(s, i + 1 - start);
                }
            }
            return None;
        }
        assert(acc * 10 + d <= usize::MAX) by (nonlinear_arith)
            requires
                acc <= (usize::MAX - d) / 10,
                d <= 9,
        ;
        acc = acc * 10 + d;
        i = i + 1;
        assert(all_digits(next));
    }
    assert(s.subrange(0, end - start) =~= s);
    Some(acc)
}

/// The digits of a signed decimal: `s` without a leading `+` or `-`.
pub open spec fn unsigned_part(s: Seq<u8>) -> Seq<u8> {
    if s.len() > 0 && (s[0] == 45 || s[0] == 43) {
        s.drop_first()
    } else {
        s
    }
}

/// The value of `s` read as a signed decimal that fits in `i64`: an optional
/// `+` or `-`, then one or more digits.
pub open spec fn parsed_i64(s: Seq<u8>) -> Option<int> {
    let d = unsigned_part(s);
    if d.len() > 0 && all_digits(d) {
        let v = if s[0] == 45 {
            -(digits_value(d) as int)
        } else {
            digits_value(d) as int
        };
        if i64::MIN <= v <= i64::MAX {
            Some(v)
        } else {
            None
        }
    } else {
        None
    }
}

/// Reads `b` as a signed decimal that fits in `i64`.
pub fn parse_i64(b: &[u8]) -> (r: Option<i64>)
    ensures
        r matches Some(v) ==> parsed_i64(b@) == Some(v as int),
        r is None ==> parsed_i64(b@) is None,
{
    let ghost d = unsigned_part(b@);
    let start: usize = if b.len() > 0 && (b[0] == 45 || b[0] == 43) {
        1
    } else {
        0
    };
    assert(d =~= b@.subrange(start as int, b@.len() as int));
    if start == b.len() {
        return None;
    }
    let limit: u64 = 9223372036854775808;
    let mut acc: u64 = 0;
    let mut i: usize = start;
    while i < b.len()
        invariant
            start <= i <= b@.len(),
            d == b@.subrange(start as int, b@.len() as int),
            d == unsigned_part(b@),
            all_digits(d.subrange(0, i - start)),
            acc as nat == digits_value(d.subrange(0, i - start)),
            acc <= limit,
            limit == 9223372036854775808u64,
        decreases b@.len() - i,
    {
        let c = b[i];
        if c < 48 || c > 57 {
            assert(!is_digit(d[i - start]));
            return None;
        }
        let x = (c - 48) as u64;
        let ghost next = d.subrange(0, i + 1 - start);
        assert(next.drop_last() =~= d.subrange(0, i - start));
        assert(next.last() == c);
        if acc > (limit - x) / 10 {
            proof {
                assert(acc * 10 + x > limit) by (nonlinear_arith)
                    requires
                        acc > (limit - x) / 10,
                        x <= 9,
                        limit == 9223372036854775808u64,
                ;
                if all_digits(d) {
                    lemma_digits_value_monotone(d, i + 1 - start);
                    assert(digits_value(d) > 9223372036854775807);
                }
            }
            return None;
        }
        assert(acc * 10 + x <= limit) by (nonlinear_arith)
            requires
                acc <= (limit - x) / 10,
                x <= 9,
                limit == 9223372036854775808u64,
        ;
        acc = acc * 10 + x;
        i = i + 1;
        assert(all_digits(next));
    }
    assert(d.subrange(0, b@.len() - start) =~= d);
    if b[0] == 45 {
        if acc == limit {
            Some(i64::MIN)
        } else {
            Some(-(acc as i64))
        }
    } else if acc == limit {
        None
    } else {
        Some(acc as i64)
    }
}

} // verus!

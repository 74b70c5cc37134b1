//! Decimal integer tokens, read as `str::parse` reads them for `usize` and `i64`.
use vstd::prelude::*;

verus! {

pub open spec fn is_digit(c: char) -> bool {
    '0' <= c && c <= '9'
}

pub open spec fn all_digits(s: Seq<char>) -> bool {
    forall|i: int| 0 <= i < s.len() ==> is_digit(#[trigger] s[i])
}

/// The value of a string of decimal digits.
pub open spec fn decimal(s: Seq<char>) -> int
    decreases s.len(),
{
    if s.len() == 0 {
        0
    } else {
        decimal(s.drop_last()) * 10 + (s.last() as int - '0' as int)
    }
}

/// The digits that follow an optional leading sign (`+`, or `-` where `signed`).
pub open spec fn unsigned_part(s: Seq<char>, signed: bool) -> Seq<char> {
    if s.len() > 0 && (s[0] == '+' || (signed && s[0] == '-')) {
        s.drop_first()
    } else {
        s
    }
}

/// `s` read as a `usize`: an optional `+`, then one or more digits, the
/// value in range.
pub open spec fn unsigned_of(s: Seq<char>) -> Option<usize> {
    let d = unsigned_part(s, false);
    if d.len() > 0 && all_digits(d) && decimal(d) <= usize::MAX {
        Some(decimal(d) as usize)
    } else {
        None
    }
}

/// `s` read as an `i64`: an optional `+` or `-`, then one or more digits,
/// the value in range.
pub open spec fn signed_of(s: Seq<char>) -> Option<i64> {
    let d = unsigned_part(s, true);
    let v = if s.len() > 0 && s[0] == '-' {
        -decimal(d)
    } else {
        decimal(d)
    };
    if d.len() > 0 && all_digits(d) && i64::MIN <= v <= i64::MAX {
        Some(v as i64)
    } else {
        None
    }
}

pub proof fn lemma_decimal_nonneg(s: Seq<char>)
    requires
        all_digits(s),
    ensures
        decimal(s) >= 0,
    decreases s.len(),
{
    if s.len() > 0 {
        assert(is_digit(s[s.len() - 1]));
        lemma_decimal_nonneg(s.drop_last());
    }
}

/// The value of the digits `s[from..]` where they are one or more digits
/// and the value is at most `bound`.
fn decimal_from(s: &[char], from: usize, bound: u64) -> (r: Option<u64>)
    requires
        from <= s@.len(),
    ensures
        r == (if from < s@.len() && all_digits(s@.skip(from as int)) && decimal(
            s@.skip(from as int),
        ) <= bound {
            Some(decimal(s@.skip(from as int)) as u64)
        } else {
            None
        }),
        all_digits(s@.skip(from as int)) ==> decimal(s@.skip(from as int)) >= 0,
{
    proof {
        if all_digits(s@.skip(from as int)) {
            lemma_decimal_nonneg(s@.skip(from as int));
        }
    }
    let n = s.len();
    if from == n {
        return None;
    }
    let mut i: usize = from;
    let mut v: u64 = 0;
    let mut over = false;
    assert(s@.subrange(from as int, from as int) =~= Seq::<char>::empty());
    while i < n
        invariant
            n == s@.len(),
            from <= i <= n,
            all_digits(s@.subrange(from as int, i as int)),
            over ==> decimal(s@.subrange(from as int, i as int)) > bound,
            !over ==> v == decimal(s@.subrange(from as int, i as int)),
            v <= bound,
        decreases n - i,
    {
        let c = s[i];
        if !('0' <= c && c <= '9') {
            assert(s@.skip(from as int)[i - from] == c);
            return None;
        }
        let ghost d = s@.subrange(from as int, i as int);
        let ghost d2 = s@.subrange(from as int, i + 1);
        assert(d2.drop_last() =~= d);
        assert(all_digits(d2)) by {
            assert forall|k: int| 0 <= k < d2.len() implies is_digit(#[trigger] d2[k]) by {
                if k < d.len() {
                    assert(d2[k] == d[k]);
                }
            }
        }
        proof {
            lemma_decimal_nonneg(d);
        }
        if !over {
            let w: u128 = v as u128 * 10 + (c as u32 - '0' as u32) as u128;
            if w > bound as u128 {
                over = true;
            } else {
                v = w as u64;
            }
        }
        i += 1;
    }
    assert(s@.subrange(from as int, n as int) =~= s@.skip(from as int));
    if over {
        None
    } else {
        Some(v)
    }
}

/// Reads `s` as a `usize`, as `str::parse::<usize>` does.
pub fn parse_unsigned(s: &[char]) -> (r: Option<usize>)
    ensures
        r == unsigned_of(s@),
{
    let from: usize = if s.len() > 0 && s[0] == '+' {
        1
    } else {
        0
    };
    assert(unsigned_part(s@, false) =~= s@.skip(from as int));
    match decimal_from(s, from, usize::MAX as u64) {
        Some(v) => Some(v as usize),
        None => None,
    }
}

/// Reads `s` as an `i64`, as `str::parse::<i64>` does.
pub fn parse_signed(s: &[char]) -> (r: Option<i64>)
    ensures
        r == signed_of(s@),
{
    let neg = s.len() > 0 && s[0] == '-';
    let from: usize = if s.len() > 0 && (s[0] == '+' || s[0] == '-') {
        1
    } else {
        0
    };
    assert(unsigned_part(s@, true) =~= s@.skip(from as int));
    let bound: u64 = if neg {
        0x8000_0000_0000_0000
    } else {
        0x7fff_ffff_ffff_ffff
    };
    let r = decimal_from(s, from, bound);
    assert(bound == if neg { 0x8000_0000_0000_0000u64 } else { 0x7fff_ffff_ffff_ffffu64 });
    match r {
        Some(v) => {
            assert(v <= bound);
            if neg {
                if v == 0x8000_0000_0000_0000 {
                    Some(i64::MIN)
                } else {
                    Some(-(v as i64))
                }
            } else {
                Some(v as i64)
            }
        },
        None => None,
    }
}

/// Reads a `&str` as a `usize`.
pub fn parse_usize(s: &str) -> (r: Option<usize>)
    ensures
        r == unsigned_of(s@),
{
    let v = crate::text::chars_of(s);
    parse_unsigned(v.as_slice())
}

/// Reads a `&str` as an `i64`.
pub fn parse_i64(s: &str) -> (r: Option<i64>)
    ensures
        r == signed_of(s@),
{
    let v = crate::text::chars_of(s);
    parse_signed(v.as_slice())
}

} // verus!

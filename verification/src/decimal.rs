//! Integers as decimal text, written and read.
use vstd::prelude::*;

verus! {

/// The character code of the decimal digit `d`.
pub open spec fn digit(d: int) -> u8 {
    (48 + d) as u8
}

/// Whether `b` is the character code of a decimal digit.
pub open spec fn is_digit(b: u8) -> bool {
    48 <= b <= 57
}

/// The decimal digits of `n`, without leading zeros.
pub open spec fn dec_digits(n: nat) -> Seq<u8>
    decreases n,
{
    if n < 10 {
        seq![digit(n as int)]
    } else {
        dec_digits(n / 10).push(digit((n % 10) as int))
    }
}

/// The decimal text of `v`: its digits, behind a minus sign where `v` is
/// negative.
pub open spec fn dec_text(v: int) -> Seq<u8> {
    if v < 0 {
        seq![45u8] + dec_digits((-v) as nat)
    } else {
        dec_digits(v as nat)
    }
}

/// Whether `s` is one or more decimal digits.
pub open spec fn is_digits(s: Seq<u8>) -> bool {
    s.len() > 0 && forall|k: int| 0 <= k < s.len() ==> is_digit(#[trigger] s[k])
}

/// The number that the digits `s` spell.
pub open spec fn digits_value(s: Seq<u8>) -> nat
    decreases s.len(),
{
    if s.len() == 0 {
        0
    } else {
        (digits_value(s.drop_last()) * 10 + (s.last() - 48)) as nat
    }
}

/// The number that `s` spells as a signed decimal: an optional sign, then one
/// or more digits. `None` where `s` has another shape.
pub open spec fn signed_value(s: Seq<u8>) -> Option<int> {
    if s.len() > 0 && (s[0] == 45 || s[0] == 43) {
        if is_digits(s.skip(1)) {
            if s[0] == 45 {
                Some(-(digits_value(s.skip(1)) as int))
            } else {
                Some(digits_value(s.skip(1)) as int)
            }
        } else {
            None
        }
    } else if is_digits(s) {
        Some(digits_value(s) as int)
    } else {
        None
    }
}

/// The 64-bit number that `s` spells, if it spells one.
pub open spec fn spec_parse_i64(s: Seq<u8>) -> Option<i64> {
    match signed_value(s) {
        Some(v) => if i64::MIN <= v <= i64::MAX {
            Some(v as i64)
        } else {
            None
        },
        None => None,
    }
}

/// The value of digits never shrinks when more digits follow.
pub proof fn lemma_digits_value_prefix(s: Seq<u8>, k: int)
    requires
        0 <= k <= s.len(),
        forall|j: int| 0 <= j < s.len() ==> is_digit(#[trigger] s[j]),
    ensures
        digits_value(s.subrange(0, k)) <= digits_value(s),
    decreases s.len() - k,
{
    if k == s.len() {
        assert(s.subrange(0, k) =~= s);
    } else {
        lemma_digits_value_prefix(s, k + 1);
        let t = s.subrange(0, k + 1);
        assert(t.drop_last() =~= s.subrange(0, k));
        assert(t.last() == s[k]);
    }
}

/// The digits of a number are digits, and spell the number.
pub proof fn lemma_dec_digits_value(n: nat)
    ensures
        is_digits(dec_digits(n)),
        digits_value(dec_digits(n)) == n,
        dec_digits(n)[0] != 45,
        dec_digits(n)[0] != 43,
    decreases n,
{
    if n < 10 {
        let s = dec_digits(n);
        assert(s.drop_last() =~= Seq::<u8>::empty());
        assert(digits_value(s.drop_last()) == 0);
    } else {
        lemma_dec_digits_value(n / 10);
        let s = dec_digits(n);
        assert(s.drop_last() =~= dec_digits(n / 10));
        assert(s[0] == dec_digits(n / 10)[0]);
    }
}

/// Reading the decimal text of a number gives the number back.
pub proof fn lemma_dec_text_round_trip(v: int)
    ensures
        signed_value(dec_text(v)) == Some(v),
{
    if v < 0 {
        lemma_dec_digits_value((-v) as nat);
        assert(dec_text(v).skip(1) =~= dec_digits((-v) as nat));
    } else {
        lemma_dec_digits_value(v as nat);
    }
}

/// The decimal digits of `n`.
pub fn u64_to_dec(n: u64) -> (r: Vec<u8>)
    ensures
        r@ == dec_digits(n as nat),
{
    let mut rev: Vec<u8> = Vec::new();
    let mut m: u64 = n;
    while m >= 10
        invariant
            dec_digits(n as nat) == dec_digits(m as nat) + rev@.reverse(),
        decreases m,
    {
        let d: u8 = (m % 10) as u8;
        let ghost before = rev@;
        rev.push(48 + d);
        proof {
            assert(rev@.reverse() =~= seq![digit((m % 10) as int)] + before.reverse());
            assert(dec_digits((m / 10) as nat).push(digit((m % 10) as int)) + before.reverse()
                =~= dec_digits((m / 10) as nat) + rev@.reverse());
        }
        m = m / 10;
    }
    let ghost before = rev@;
    rev.push(48 + m as u8);
    proof {
        assert(rev@.reverse() =~= seq![digit(m as int)] + before.reverse());
    }
    let mut out: Vec<u8> = Vec::new();
    let mut k: usize = rev.len();
    while k > 0
        invariant
            k <= rev@.len(),
            out@ == rev@.reverse().subrange(0, rev@.len() - k),
        decreases k,
    {
        k = k - 1;
        out.push(rev[k]);
        assert(out@ =~= rev@.reverse().subrange(0, rev@.len() - k));
    }
    assert(out@ =~= rev@.reverse());
    out
}

/// The decimal text of `v`.
pub fn i64_to_dec(v: i64) -> (r: Vec<u8>)
    ensures
        r@ == dec_text(v as int),
{
    if v < 0 {
        let magnitude: u64 = if v == i64::MIN {
            0x8000_0000_0000_0000
        } else {
            (-v) as u64
        };
        let digits: Vec<u8> = u64_to_dec(magnitude);
        let mut out: Vec<u8> = Vec::new();
        out.push(45);
        let mut k: usize = 0;
        while k < digits.len()
            invariant
                k <= digits@.len(),
                out@ == seq![45u8] + digits@.subrange(0, k as int),
            decreases digits.len() - k,
        {
            out.push(digits[k]);
            k = k + 1;
            assert(out@ =~= seq![45u8] + digits@.subrange(0, k as int));
        }
        assert(digits@.subrange(0, k as int) =~= digits@);
        out
    } else {
        u64_to_dec(v as u64)
    }
}

/// Reads the digits `s[from..]` as a number. `None` where there is no digit,
/// where a byte is no digit, or where the number exceeds `limit`.
fn parse_digits(s: &Vec<u8>, from: usize, limit: u64) -> (r: Option<u64>)
    requires
        from <= s.len(),
        9 <= limit <= 0x8000_0000_0000_0000,
    ensures
        match r {
            Some(v) => is_digits(s@.skip(from as int)) && v == digits_value(s@.skip(from as int))
                && v <= limit,
            None => !is_digits(s@.skip(from as int)) || digits_value(s@.skip(from as int))
                > limit,
        },
{
    let ghost body = s@.skip(from as int);
    if from == s.len() {
        return None;
    }
    let mut acc: u64 = 0;
    let mut k: usize = from;
    while k < s.len()
        invariant
            from <= k <= s.len(),
            body == s@.skip(from as int),
            9 <= limit <= 0x8000_0000_0000_0000,
            acc <= limit,
            acc == digits_value(body.subrange(0, k - from)),
            forall|j: int| 0 <= j < k - from ==> is_digit(#[trigger] body[j]),
        decreases s.len() - k,
    {
        let b: u8 = s[k];
        if b < 48 || b > 57 {
            assert(!is_digit(body[k - from]));
            return None;
        }
        proof {
            let t = body.subrange(0, k - from + 1);
            assert(t.drop_last() =~= body.subrange(0, k - from));
            assert(t.last() == b);
        }
        let d: u64 = (b - 48) as u64;
        if acc > (limit - d) / 10 {
            proof {
                // The digits read so far already spell more than the limit allows.
                let t = body.subrange(0, k - from + 1);
                assert(digits_value(t) == acc * 10 + d);
                assert(digits_value(t) > limit);
                if !is_digits(body) {
                } else {
                    lemma_digits_value_prefix(body, k - from + 1);
                }
            }
            return None;
        }
        acc = acc * 10 + d;
        k = k + 1;
    }
    assert(body.subrange(0, k - from) =~= body);
    Some(acc)
}

/// Reads `s` as a signed 64-bit decimal: an optional `+` or `-`, then one or
/// more digits. `None` where `s` has another shape or the number does not fit.
pub fn parse_i64(s: &Vec<u8>) -> (r: Option<i64>)
    ensures
        r == spec_parse_i64(s@),
{
    if s.len() > 0 && s[0] == 45 {
        match parse_digits(s, 1, 0x8000_0000_0000_0000) {
            Some(v) => {
                if v == 0x8000_0000_0000_0000 {
                    Some(i64::MIN)
                } else {
                    Some(-(v as i64))
                }
            },
            None => None,
        }
    } else if s.len() > 0 && s[0] == 43 {
        match parse_digits(s, 1, 0x7fff_ffff_ffff_ffff) {
            Some(v) => Some(v as i64),
            None => None,
        }
    } else {
        assert(s@.skip(0) =~= s@);
        match parse_digits(s, 0, 0x7fff_ffff_ffff_ffff) {
            Some(v) => Some(v as i64),
            None => None,
        }
    }
}

} // verus!

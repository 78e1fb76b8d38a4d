//! Decimal numbers in GeoNames fields: unsigned integers and coordinates
//! held as whole micro-degrees.
use vstd::prelude::*;
use crate::text::{split_chars, split_spec, lemma_split_nonempty};

verus! {

/// Micro-degrees in one degree.
pub const MICRO: i64 = 1_000_000;

/// The largest magnitude of a longitude, in micro-degrees.
pub const MAX_LONGITUDE: i64 = 180_000_000;

/// The largest magnitude of a latitude, in micro-degrees.
pub const MAX_LATITUDE: i64 = 90_000_000;

pub open spec fn is_digit(c: char) -> bool {
    '0' <= c && c <= '9'
}

pub open spec fn all_digits(s: Seq<char>) -> bool {
    forall|i: int| 0 <= i < s.len() ==> is_digit(#[trigger] s[i])
}

pub open spec fn digit_value(c: char) -> int {
    (c as u32) - ('0' as u32)
}

/// The number that a string of decimal digits denotes.
pub open spec fn digits_value(s: Seq<char>) -> int
    decreases s.len(),
{
    if s.len() == 0 {
        0
    } else {
        digits_value(s.drop_last()) * 10 + digit_value(s.last())
    }
}

/// A field read as an unsigned 32-bit integer: one or more decimal digits
/// whose value fits.
pub open spec fn u32_of(s: Seq<char>) -> Option<u32> {
    if s.len() > 0 && all_digits(s) && digits_value(s) <= u32::MAX {
        Some(digits_value(s) as u32)
    } else {
        None
    }
}

/// The first six fraction digits, padded with zeros to six.
pub open spec fn six_digits(f: Seq<char>) -> Seq<char> {
    if f.len() >= 6 {
        f.take(6)
    } else {
        f + Seq::new((6 - f.len()) as nat, |i: int| '0')
    }
}

/// The magnitude of an unsigned decimal `int[.frac]`, in micro-degrees,
/// digits past the sixth after the point dropped; `None` when malformed.
pub open spec fn unsigned_micro(body: Seq<char>) -> Option<int> {
    let parts = split_spec(body, '.');
    let int_part = parts[0];
    let frac = if parts.len() == 2 { parts[1] } else { Seq::<char>::empty() };
    if parts.len() <= 2 && int_part.len() > 0 && all_digits(int_part) && all_digits(frac)
        && (parts.len() == 2 ==> frac.len() > 0) {
        Some(digits_value(int_part) * MICRO + digits_value(six_digits(frac)))
    } else {
        None
    }
}

/// A coordinate field in micro-degrees: an optional `-`, then `int[.frac]`,
/// of magnitude at most `limit`.
pub open spec fn micro_of(s: Seq<char>, limit: int) -> Option<i32> {
    let neg = s.len() > 0 && s[0] == '-';
    let body = if neg { s.skip(1) } else { s };
    match unsigned_micro(body) {
        Some(v) => if v <= limit {
            Some((if neg { -v } else { v }) as i32)
        } else {
            None
        },
        None => None,
    }
}

proof fn lemma_digits_prefix(s: Seq<char>, k: int)
    requires
        0 <= k <= s.len(),
        all_digits(s),
    ensures
        0 <= digits_value(s.take(k)) <= digits_value(s),
    decreases s.len() - k,
{
    if k < s.len() {
        lemma_digits_prefix(s, k + 1);
        assert(s.take(k + 1).drop_last() =~= s.take(k));
        assert(is_digit(s[k]));
    } else {
        assert(s.take(k) =~= s);
    }
    lemma_digits_nonneg(s.take(k));
}

proof fn lemma_digits_nonneg(s: Seq<char>)
    requires
        all_digits(s),
    ensures
        digits_value(s) >= 0,
    decreases s.len(),
{
    if s.len() > 0 {
        assert(all_digits(s.drop_last()));
        lemma_digits_nonneg(s.drop_last());
        assert(is_digit(s.last()));
    }
}

/// The value of a string of digits, when it is all digits and at most `cap`.
fn digits_upto(s: &Vec<char>, cap: u64) -> (r: Option<u64>)
    requires
        cap <= u32::MAX,
    ensures
        r == (if all_digits(s@) && digits_value(s@) <= cap {
            Some(digits_value(s@) as u64)
        } else {
            None::<u64>
        }),
{
    let mut acc: u64 = 0;
    let mut i: usize = 0;
    while i < s.len()
        invariant
            i <= s.len(),
            cap <= u32::MAX,
            all_digits(s@.take(i as int)),
            acc == digits_value(s@.take(i as int)),
            acc <= cap,
        decreases s.len() - i,
    {
        let c = s[i];
        assert(s@.take(i as int + 1).drop_last() =~= s@.take(i as int));
        if !('0' <= c && c <= '9') {
            assert(!is_digit(s@[i as int]));
            return None;
        }
        let d = (c as u32 - '0' as u32) as u64;
        acc = acc * 10 + d;
        assert(all_digits(s@.take(i as int + 1)));
        if acc > cap {
            proof {
                if all_digits(s@) {
                    lemma_digits_prefix(s@, i as int + 1);
                }
            }
            return None;
        }
        i += 1;
    }
    assert(s@.take(s.len() as int) =~= s@);
    Some(acc)
}


/// Reads an unsigned 32-bit integer written in decimal digits.
pub fn parse_u32(s: &Vec<char>) -> (r: Option<u32>)
    ensures
        r == u32_of(s@),
{
    if s.len() == 0 {
        return None;
    }
    let r = digits_upto(s, 0xffff_ffff);
    proof {
        if all_digits(s@) {
            lemma_digits_nonneg(s@);
        }
    }
    match r {
        Some(v) => Some(v as u32),
        None => None,
    }
}

/// The value of the first six fraction digits, padded with zeros.
fn six_digits_value(f: &Vec<char>) -> (r: u64)
    requires
        all_digits(f@),
    ensures
        r == digits_value(six_digits(f@)),
        r < 1_000_000,
{
    let ghost d = six_digits(f@);
    assert(d.len() == 6);
    assert(all_digits(d));
    proof {
        reveal_with_fuel(pow10, 7);
    }
    let mut acc: u64 = 0;
    let mut j: usize = 0;
    while j < 6
        invariant
            pow10(0) == 1 && pow10(1) == 10 && pow10(2) == 100 && pow10(3) == 1000,
            pow10(4) == 10000 && pow10(5) == 100000 && pow10(6) == 1000000,
            j <= 6,
            d == six_digits(f@),
            d.len() == 6,
            all_digits(d),
            all_digits(f@),
            acc == digits_value(d.take(j as int)),
            acc < pow10(j as nat),
        decreases 6 - j,
    {
        let c = if j < f.len() { f[j] } else { '0' };
        assert(c == d[j as int]);
        assert(d.take(j as int + 1).drop_last() =~= d.take(j as int));
        assert(is_digit(d[j as int]));
        assert(pow10((j + 1) as nat) == 10 * pow10(j as nat));
        acc = acc * 10 + (c as u32 - '0' as u32) as u64;
        j += 1;
    }
    assert(d.take(6) =~= d);
    acc
}

pub open spec fn pow10(n: nat) -> int
    decreases n,
{
    if n == 0 {
        1
    } else {
        10 * pow10((n - 1) as nat)
    }
}

/// Reads a coordinate as micro-degrees: an optional `-`, integer digits, and
/// optionally a point and fraction digits; digits past the sixth after the
/// point are dropped. `None` when malformed or of magnitude over `limit`.
#[verifier::loop_isolation(false)]
pub fn parse_micro(s: &Vec<char>, limit: i64) -> (r: Option<i32>)
    requires
        0 <= limit <= MAX_LONGITUDE,
    ensures
        r == micro_of(s@, limit as int),
{
    let neg = s.len() > 0 && s[0] == '-';
    let mut body: Vec<char> = Vec::new();
    let mut i: usize = if neg { 1 } else { 0 };
    let start = i;
    while i < s.len()
        invariant
            start <= i <= s.len(),
            start == (if neg { 1usize } else { 0usize }),
            body@ == s@.subrange(start as int, i as int),
        decreases s.len() - i,
    {
        body.push(s[i]);
        i += 1;
    }
    assert(body@ =~= (if neg { s@.skip(1) } else { s@ }));
    let parts = split_chars(&body, '.');
    proof {
        lemma_split_nonempty(body@, '.');
        assert(split_spec(body@, '.')[0] == parts@[0]@);
        if parts.len() == 2 {
            assert(split_spec(body@, '.')[1] == parts@[1]@);
        }
    }
    if parts.len() > 2 || parts[0].len() == 0 {
        return None;
    }
    let ip = match digits_upto(&parts[0], 180) {
        Some(v) => v,
        None => {
            proof {
                if all_digits(parts@[0]@) {
                    lemma_digits_nonneg(parts@[0]@);
                }
                let fs = if parts.len() == 2 { parts@[1]@ } else { Seq::<char>::empty() };
                if all_digits(fs) {
                    assert(all_digits(six_digits(fs)));
                    lemma_digits_nonneg(six_digits(fs));
                }
            }
            return None;
        },
    };
    proof {
        lemma_digits_nonneg(parts@[0]@);
    }
    let empty: Vec<char> = Vec::new();
    let frac: &Vec<char> = if parts.len() == 2 { &parts[1] } else { &empty };
    if parts.len() == 2 && frac.len() == 0 {
        return None;
    }
    assert(frac@ == (if parts.len() == 2 { parts@[1]@ } else { Seq::<char>::empty() }));
    let mut k: usize = 0;
    while k < frac.len()
        invariant
            k <= frac.len(),
            forall|j: int| 0 <= j < k ==> is_digit(#[trigger] frac@[j]),
        decreases frac.len() - k,
    {
        if !('0' <= frac[k] && frac[k] <= '9') {
            assert(!is_digit(frac@[k as int]));
            assert(!all_digits(frac@));
            return None;
        }
        k += 1;
    }
    assert(frac@ == (if parts.len() == 2 { parts@[1]@ } else { Seq::<char>::empty() }));
    let fv = six_digits_value(frac);
    let v: i64 = (ip as i64) * MICRO + fv as i64;
    if v > limit {
        return None;
    }
    Some(if neg { -v } else { v } as i32)
}

} // verus!

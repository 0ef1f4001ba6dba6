use vstd::prelude::*;

verus! {

pub open spec fn is_digit(c: u8) -> bool {
    48 <= c <= 57
}

pub open spec fn all_digits(s: Seq<u8>, start: int, len: int) -> bool {
    forall|i: int| start <= i < start + len ==> is_digit(s[i])
}

/// Value of the `len` decimal digits of `s` starting at `start`.
pub open spec fn digits_val(s: Seq<u8>, start: int, len: int) -> int
    decreases len,
{
    if len <= 0 {
        0
    } else {
        digits_val(s, start, len - 1) * 10 + (s[start + len - 1] - 48)
    }
}

pub open spec fn pow10(n: int) -> int
    decreases n,
{
    if n <= 0 {
        1
    } else {
        10 * pow10(n - 1)
    }
}

/// A run of `len` digits is nonnegative and below ten to the `len`.
pub proof fn lemma_digits_val_bounds(s: Seq<u8>, start: int, len: int)
    requires
        0 <= start,
        start + len <= s.len(),
        all_digits(s, start, len),
    ensures
        0 <= digits_val(s, start, len) < pow10(len),
    decreases len,
{
    if len > 0 {
        lemma_digits_val_bounds(s, start, len - 1);
    }
}

pub proof fn lemma_pow10_mono(a: int, b: int)
    requires
        a <= b,
    ensures
        pow10(a) <= pow10(b),
    decreases b - a,
{
    if a < b {
        lemma_pow10_mono(a, b - 1);
        lemma_pow10_pos(b - 1);
    }
}

pub proof fn lemma_pow10_pos(n: int)
    ensures
        pow10(n) >= 1,
    decreases n,
{
    if n > 0 {
        lemma_pow10_pos(n - 1);
    }
}

/// Growing a digit run never shrinks its value.
pub proof fn lemma_digits_val_mono(s: Seq<u8>, start: int, l1: int, l2: int)
    requires
        0 <= start,
        0 <= l1 <= l2,
        start + l2 <= s.len(),
        all_digits(s, start, l2),
    ensures
        digits_val(s, start, l1) <= digits_val(s, start, l2),
    decreases l2 - l1,
{
    if l1 < l2 {
        lemma_digits_val_mono(s, start, l1, l2 - 1);
        lemma_digits_val_bounds(s, start, l2 - 1);
    }
}

/// Reads exactly `len` digits at `start`; `None` if any byte is not a digit.
pub fn parse_fixed_digits(b: &[u8], start: usize, len: usize) -> (r: Option<u32>)
    requires
        start + len <= b@.len(),
        len <= 8,
    ensures
        match r {
            Some(v) => all_digits(b@, start as int, len as int) && v as int == digits_val(
                b@,
                start as int,
                len as int,
            ),
            None => !all_digits(b@, start as int, len as int),
        },
{
    let bl = b.len();
    let mut acc: u32 = 0;
    let mut i: usize = 0;
    while i < len
        invariant
            start + len <= bl == b@.len(),
            len <= 8,
            0 <= i <= len,
            all_digits(b@, start as int, i as int),
            acc as int == digits_val(b@, start as int, i as int),
            acc < 100_000_000,
        decreases len - i,
    {
        let c = b[start + i];
        if c < 48 || c > 57 {
            return None;
        }
        proof {
            lemma_digits_val_bounds(b@, start as int, i as int);
        }
        acc = acc * 10 + ((c - 48) as u32);
        i = i + 1;
        proof {
            lemma_digits_val_bounds(b@, start as int, i as int);
            lemma_pow10_mono(i as int, 8);
            assert(pow10(8) == 100_000_000) by {
                reveal_with_fuel(pow10, 9);
            }
        }
    }
    Some(acc)
}

/// Parses the bytes in `[start, end)` as an unsigned decimal number.
/// `None` when the run is empty, holds a non-digit, or does not fit.
pub fn parse_u64_digits(b: &[u8], start: usize, end: usize) -> (r: Option<u64>)
    requires
        start <= end <= b@.len(),
    ensures
        match r {
            Some(v) => end > start && all_digits(b@, start as int, (end - start) as int)
                && v as int == digits_val(b@, start as int, (end - start) as int),
            None => start == end || !all_digits(b@, start as int, (end - start) as int)
                || digits_val(b@, start as int, (end - start) as int) > u64::MAX,
        },
{
    if start == end {
        return None;
    }
    let bl = b.len();
    let mut acc: u64 = 0;
    let mut i: usize = 0;
    let len = end - start;
    while i < len
        invariant
            start <= end <= bl == b@.len(),
            len == end - start,
            0 <= i <= len,
            all_digits(b@, start as int, i as int),
            acc as int == digits_val(b@, start as int, i as int),
        decreases len - i,
    {
        let c = b[start + i];
        if c < 48 || c > 57 {
            return None;
        }
        proof {
            lemma_digits_val_bounds(b@, start as int, i as int);
        }
        let step = match acc.checked_mul(10) {
            Some(x) => x,
            None => {
                proof {
                    if all_digits(b@, start as int, len as int) {
                        lemma_digits_val_overflow(b@, start as int, (i + 1) as int, len as int);
                    }
                }
                return None;
            },
        };
        acc = match step.checked_add((c - 48) as u64) {
            Some(x) => x,
            None => {
                proof {
                    if all_digits(b@, start as int, len as int) {
                        lemma_digits_val_overflow(b@, start as int, (i + 1) as int, len as int);
                    }
                }
                return None;
            },
        };
        i = i + 1;
    }
    Some(acc)
}

/// A digit run reads the same through any window with equal bytes.
pub proof fn lemma_digits_val_congruent(
    s1: Seq<u8>,
    s2: Seq<u8>,
    start1: int,
    start2: int,
    len: int,
)
    requires
        forall|q: int| 0 <= q < len ==> s1[start1 + q] == #[trigger] s2[start2 + q],
    ensures
        digits_val(s1, start1, len) == digits_val(s2, start2, len),
        all_digits(s1, start1, len) == all_digits(s2, start2, len),
    decreases len,
{
    if len > 0 {
        lemma_digits_val_congruent(s1, s2, start1, start2, len - 1);
        assert(s1[start1 + (len - 1)] == s2[start2 + (len - 1)]);
    }
    assert(all_digits(s1, start1, len) ==> all_digits(s2, start2, len)) by {
        if all_digits(s1, start1, len) {
            assert forall|q: int| start2 <= q < start2 + len implies is_digit(s2[q]) by {
                let p = q - start2;
                assert(s1[start1 + p] == s2[start2 + p]);
                assert(is_digit(s1[start1 + p]));
            }
        }
    }
    assert(all_digits(s2, start2, len) ==> all_digits(s1, start1, len)) by {
        if all_digits(s2, start2, len) {
            assert forall|q: int| start1 <= q < start1 + len implies is_digit(s1[q]) by {
                let p = q - start1;
                assert(s1[start1 + p] == s2[start2 + p]);
                assert(is_digit(s2[start2 + p]));
            }
        }
    }
}

/// The bytes of `s` in `[start, end)` spell exactly `k`.
pub open spec fn range_is(s: Seq<u8>, start: int, end: int, k: Seq<u8>) -> bool {
    &&& end - start == k.len()
    &&& forall|j: int| 0 <= j < k.len() ==> s[start + j] == k[j]
}

pub fn range_matches(b: &[u8], start: usize, end: usize, k: &[u8]) -> (r: bool)
    requires
        start <= end <= b@.len(),
    ensures
        r == range_is(b@, start as int, end as int, k@),
{
    let bl = b.len();
    let kl = k.len();
    if end - start != kl {
        return false;
    }
    let mut j: usize = 0;
    while j < kl
        invariant
            start <= end <= bl == b@.len(),
            end - start == kl == k@.len(),
            0 <= j <= kl,
            forall|i: int| 0 <= i < j ==> b@[start + i] == k@[i],
        decreases kl - j,
    {
        if b[start + j] != k[j] {
            return false;
        }
        j = j + 1;
    }
    true
}

/// Once a digit prefix exceeds `u64::MAX`, every longer run does too.
proof fn lemma_digits_val_overflow(s: Seq<u8>, start: int, l1: int, l2: int)
    requires
        0 <= start,
        0 < l1 <= l2,
        start + l2 <= s.len(),
        all_digits(s, start, l2),
        digits_val(s, start, l1) > u64::MAX,
    ensures
        digits_val(s, start, l2) > u64::MAX,
{
    lemma_digits_val_mono(s, start, l1, l2);
}

} // verus!

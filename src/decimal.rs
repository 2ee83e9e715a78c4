use vstd::prelude::*;

verus! {

pub const ZERO: u8 = 48;

pub const NINE: u8 = 57;

pub open spec fn is_digit(b: u8) -> bool {
    ZERO <= b && b <= NINE
}

/// The number written by a sequence of ASCII decimal digits.
pub open spec fn digits_value(d: Seq<u8>) -> nat
    decreases d.len(),
{
    if d.len() == 0 {
        0
    } else {
        digits_value(d.drop_last()) * 10 + (d.last() - ZERO) as nat
    }
}

/// The shortest decimal form of `n`: no leading zero, `0` for zero.
pub open spec fn decimal(n: nat) -> Seq<u8>
    decreases n,
{
    if n < 10 {
        seq![(n + ZERO) as u8]
    } else {
        decimal(n / 10).push(((n % 10) + ZERO) as u8)
    }
}

/// The first index at or after `i` that does not hold a digit (or the end).
pub open spec fn digit_end(s: Seq<u8>, i: int) -> int
    decreases s.len() - i,
{
    if 0 <= i < s.len() && is_digit(s[i]) {
        digit_end(s, i + 1)
    } else {
        i
    }
}

pub proof fn lemma_digit_end(s: Seq<u8>, i: int)
    requires
        0 <= i <= s.len(),
    ensures
        i <= digit_end(s, i) <= s.len(),
        forall|k: int| i <= k < digit_end(s, i) ==> is_digit(#[trigger] s[k]),
        digit_end(s, i) < s.len() ==> !is_digit(s[digit_end(s, i)]),
    decreases s.len() - i,
{
    if i < s.len() && is_digit(s[i]) {
        lemma_digit_end(s, i + 1);
    }
}

/// Reading a longer run of digits never gives a smaller number.
pub proof fn lemma_digits_value_prefix(d: Seq<u8>, k: int)
    requires
        0 <= k <= d.len(),
        forall|j: int| 0 <= j < d.len() ==> is_digit(#[trigger] d[j]),
    ensures
        digits_value(d.subrange(0, k)) <= digits_value(d),
    decreases d.len(),
{
    if k < d.len() {
        let p = d.drop_last();
        assert(p.subrange(0, k) =~= d.subrange(0, k));
        lemma_digits_value_prefix(p, k);
    } else {
        assert(d.subrange(0, k) =~= d);
    }
}

pub proof fn lemma_decimal(n: nat)
    ensures
        decimal(n).len() >= 1,
        forall|j: int| 0 <= j < decimal(n).len() ==> is_digit(#[trigger] decimal(n)[j]),
        digits_value(decimal(n)) == n,
        decimal(n).len() > 1 ==> decimal(n)[0] != ZERO,
        n == 0 <==> decimal(n)[0] == ZERO,
    decreases n,
{
    if n >= 10 {
        lemma_decimal(n / 10);
        assert(decimal(n).drop_last() =~= decimal(n / 10));
        assert(n == (n / 10) * 10 + n % 10) by (nonlinear_arith);
        assert(decimal(n).last() == ((n % 10) + ZERO) as u8);
        assert((decimal(n).last() - ZERO) as nat == n % 10);
        assert(digits_value(decimal(n)) == digits_value(decimal(n / 10)) * 10 + n % 10);
    } else {
        assert(decimal(n).drop_last() =~= Seq::<u8>::empty());
        assert(digits_value(decimal(n).drop_last()) == 0);
        assert((decimal(n).last() - ZERO) as nat == n);
    }
}

/// The end of the run of digits starting at `i`.
pub fn scan_digits(s: &[u8], i: usize) -> (r: usize)
    requires
        i <= s@.len(),
    ensures
        r == digit_end(s@, i as int),
{
    let mut j: usize = i;
    while j < s.len() && ZERO <= s[j] && s[j] <= NINE
        invariant
            i <= j <= s@.len(),
            digit_end(s@, i as int) == digit_end(s@, j as int),
        decreases s@.len() - j,
    {
        j = j + 1;
    }
    j
}

/// The number written by the digits `s[start..end]`, or `None` when it
/// exceeds `cap`.
pub fn read_decimal(s: &[u8], start: usize, end: usize, cap: u64) -> (r: Option<u64>)
    requires
        start <= end <= s@.len(),
        forall|k: int| start <= k < end ==> is_digit(#[trigger] s@[k]),
    ensures
        match r {
            Some(n) => n as nat == digits_value(s@.subrange(start as int, end as int))
                && n <= cap,
            None => digits_value(s@.subrange(start as int, end as int)) > cap,
        },
{
    let mut acc: u128 = 0;
    let mut i: usize = start;
    assert(s@.subrange(start as int, start as int) =~= Seq::<u8>::empty());
    while i < end
        invariant
            start <= i <= end <= s@.len(),
            forall|k: int| start <= k < end ==> is_digit(#[trigger] s@[k]),
            acc == digits_value(s@.subrange(start as int, i as int)),
            acc <= cap,
        decreases end - i,
    {
        let d = s[i] - ZERO;
        acc = acc * 10 + d as u128;
        assert(s@.subrange(start as int, i + 1).drop_last() =~= s@.subrange(start as int, i as int));
        i = i + 1;
        if acc > cap as u128 {
            proof {
                let whole = s@.subrange(start as int, end as int);
                assert(whole.subrange(0, i - start) =~= s@.subrange(start as int, i as int));
                lemma_digits_value_prefix(whole, i - start);
            }
            return None;
        }
    }
    Some(acc as u64)
}

} // verus!

//! Low-level byte primitives shared by the envelope and definition codecs:
//! ASCII decimal numbers and byte-sequence helpers.

use vstd::prelude::*;

verus! {

/// ASCII decimal digit test, shared by the spec and exec layers.
pub open spec fn is_digit(b: u8) -> bool {
    48 <= b && b <= 57
}

/// Decimal digits of `n`, most significant first; a single `'0'` for zero.
pub open spec fn digits_of(n: nat) -> Seq<u8>
    decreases n,
{
    if n < 10 {
        seq![(48 + n) as u8]
    } else {
        digits_of(n / 10).push((48 + n % 10) as u8)
    }
}

/// Numeric value of a digit sequence, most significant first.
pub open spec fn digits_val(s: Seq<u8>) -> nat
    decreases s.len(),
{
    if s.len() == 0 {
        0
    } else {
        (digits_val(s.drop_last()) * 10 + (s.last() - 48)) as nat
    }
}

/// Index of the first non-digit byte at or after `pos`.
pub open spec fn digit_run_end(s: Seq<u8>, pos: int) -> int
    decreases s.len() - pos,
{
    if pos >= s.len() || pos < 0 || !is_digit(s[pos]) {
        pos
    } else {
        digit_run_end(s, pos + 1)
    }
}

/// Powers of ten.
pub open spec fn pow10(k: nat) -> nat
    decreases k,
{
    if k == 0 {
        1
    } else {
        10 * pow10((k - 1) as nat)
    }
}

/// Greedy decimal number parse at `pos`: the digit run must be non-empty,
/// at most 20 digits long, and its value must fit in a `u64`.
pub open spec fn spec_parse_num(s: Seq<u8>, pos: int) -> Option<(u64, int)> {
    let end = digit_run_end(s, pos);
    let v = digits_val(s.subrange(pos, end));
    if pos < end && end - pos <= 20 && v <= u64::MAX {
        Some((v as u64, end))
    } else {
        None
    }
}

/// Appending one digit multiplies the value by ten and adds it.
pub proof fn lemma_digits_val_push(s: Seq<u8>, b: u8)
    requires
        is_digit(b),
    ensures
        digits_val(s.push(b)) == digits_val(s) * 10 + (b - 48),
{
    assert(s.push(b).drop_last() =~= s);
    assert(s.push(b).last() == b);
}

/// Every byte produced by `digits_of` is a digit.
pub proof fn lemma_digits_are_digits(n: nat)
    ensures
        forall|i: int| 0 <= i < digits_of(n).len() ==> is_digit(#[trigger] digits_of(n)[i]),
    decreases n,
{
    if n < 10 {
        assert(digits_of(n)[0] == (48 + n) as u8);
    } else {
        lemma_digits_are_digits(n / 10);
        let p = digits_of(n / 10);
        let b = (48 + n % 10) as u8;
        assert forall|i: int| 0 <= i < digits_of(n).len() implies is_digit(
            #[trigger] digits_of(n)[i],
        ) by {
            if i < p.len() {
                assert(digits_of(n)[i] == p[i]);
            } else {
                assert(digits_of(n)[i] == b);
            }
        }
    }
}

/// The digits of `n` evaluate back to `n`.
pub proof fn lemma_digits_val_of(n: nat)
    ensures
        digits_val(digits_of(n)) == n,
    decreases n,
{
    if n < 10 {
        let b = (48 + n) as u8;
        assert(digits_of(n) =~= Seq::<u8>::empty().push(b));
        lemma_digits_val_push(Seq::<u8>::empty(), b);
        assert(digits_val(Seq::<u8>::empty()) == 0);
    } else {
        lemma_digits_val_of(n / 10);
        lemma_digits_val_push(digits_of(n / 10), (48 + n % 10) as u8);
        assert(n == (n / 10) * 10 + n % 10) by (nonlinear_arith);
    }
}

/// `n < 10^k` gives at most `k` digits.
pub proof fn lemma_digits_len(n: nat, k: nat)
    requires
        k >= 1,
        n < pow10(k),
    ensures
        digits_of(n).len() <= k,
    decreases n,
{
    if n < 10 {
    } else {
        assert(pow10(k) == 10 * pow10((k - 1) as nat));
        assert(n / 10 < pow10((k - 1) as nat)) by (nonlinear_arith)
            requires
                n < 10 * pow10((k - 1) as nat),
        ;
        assert(k >= 2) by {
            if k == 1 {
                assert(pow10(1nat) == 10);
            }
        }
        lemma_digits_len(n / 10, (k - 1) as nat);
    }
}

/// The concrete value of `10^20`, needed to bound 20-digit runs.
pub proof fn lemma_pow10_20()
    ensures
        pow10(20) == 100000000000000000000nat,
{
    reveal_with_fuel(pow10, 21);
}

/// A `u64` value never takes more than 20 digits.
pub proof fn lemma_digits_len_u64(n: nat)
    requires
        n <= u64::MAX,
    ensures
        digits_of(n).len() <= 20,
        digits_of(n).len() >= 1,
{
    lemma_pow10_20();
    lemma_digits_len(n, 20);
    assert(digits_of(n).len() >= 1) by {
        if n < 10 {
        }
    }
}

/// If everything in `[pos, e)` is a digit and `e` is the end of the string or
/// a non-digit, then `e` is exactly where the digit run ends.
pub proof fn lemma_digit_run_end(s: Seq<u8>, pos: int, e: int)
    requires
        0 <= pos <= e <= s.len(),
        forall|i: int| pos <= i < e ==> is_digit(#[trigger] s[i]),
        e == s.len() || !is_digit(s[e]),
    ensures
        digit_run_end(s, pos) == e,
    decreases e - pos,
{
    if pos == e {
    } else {
        lemma_digit_run_end(s, pos + 1, e);
    }
}

/// Parsing right after writing: if the digits of `n` sit at `pos` and are
/// followed by a non-digit (or the end), the parse returns exactly `n`.
pub proof fn lemma_parse_digits_of(s: Seq<u8>, pos: int, n: nat)
    requires
        n <= u64::MAX,
        0 <= pos,
        pos + digits_of(n).len() <= s.len(),
        s.subrange(pos, pos + digits_of(n).len() as int) == digits_of(n),
        pos + digits_of(n).len() == s.len()
            || !is_digit(s[pos + digits_of(n).len()]),
    ensures
        spec_parse_num(s, pos) == Some((n as u64, pos + digits_of(n).len() as int)),
{
    let d = digits_of(n);
    let e = pos + d.len() as int;
    lemma_digits_are_digits(n);
    assert forall|i: int| pos <= i < e implies is_digit(#[trigger] s[i]) by {
        assert(s.subrange(pos, e)[i - pos] == s[i]);
        assert(is_digit(d[i - pos]));
    }
    lemma_digit_run_end(s, pos, e);
    lemma_digits_len_u64(n);
    lemma_digits_val_of(n);
    assert(s.subrange(pos, e) =~= d);
}

/// Appends the decimal digits of `n` to `out`.
pub fn push_digits(out: &mut Vec<u8>, n: u64)
    ensures
        final(out)@ == old(out)@ + digits_of(n as nat),
    decreases n,
{
    if n < 10 {
        out.push((48 + n) as u8);
        assert(out@ =~= old(out)@ + digits_of(n as nat));
    } else {
        push_digits(out, n / 10);
        out.push((48 + (n % 10)) as u8);
        assert(out@ =~= old(out)@ + digits_of(n as nat));
    }
}

/// Appends all of `src` to `out`.
pub fn push_all(out: &mut Vec<u8>, src: &Vec<u8>)
    ensures
        final(out)@ == old(out)@ + src@,
{
    let mut i: usize = 0;
    while i < src.len()
        invariant
            0 <= i <= src.len(),
            out@ == old(out)@ + src@.subrange(0, i as int),
        decreases src.len() - i,
    {
        out.push(src[i]);
        assert(out@ =~= old(out)@ + src@.subrange(0, i + 1));
        i = i + 1;
    }
    assert(out@ =~= old(out)@ + src@);
}

/// Byte-sequence equality.
pub fn bytes_eq(a: &Vec<u8>, b: &Vec<u8>) -> (r: bool)
    ensures
        r == (a@ == b@),
{
    if a.len() != b.len() {
        return false;
    }
    let mut i: usize = 0;
    while i < a.len()
        invariant
            0 <= i <= a.len(),
            a@.len() == b@.len(),
            forall|j: int| 0 <= j < i ==> a@[j] == b@[j],
        decreases a.len() - i,
    {
        if a[i] != b[i] {
            return false;
        }
        i = i + 1;
    }
    assert(a@ =~= b@);
    true
}

/// Parses a decimal number at `pos`, exactly as `spec_parse_num` describes.
pub fn parse_num(s: &Vec<u8>, pos: usize) -> (r: Option<(u64, usize)>)
    requires
        pos <= s@.len(),
    ensures
        match r {
            Some((v, e)) => spec_parse_num(s@, pos as int) == Some((v, e as int))
                && pos < e <= s@.len(),
            None => spec_parse_num(s@, pos as int) is None,
        },
{
    let mut end: usize = pos;
    while end < s.len() && 48 <= s[end as usize] && s[end as usize] <= 57
        invariant
            pos <= end <= s@.len(),
            forall|i: int| pos <= i < end ==> is_digit(#[trigger] s@[i]),
        decreases s@.len() - end,
    {
        end = end + 1;
    }
    proof {
        lemma_digit_run_end(s@, pos as int, end as int);
    }
    if end == pos || end - pos > 20 {
        return None;
    }
    let mut acc: u128 = 0;
    let mut i: usize = pos;
    while i < end
        invariant
            pos <= i <= end <= s@.len(),
            end - pos <= 20,
            acc == digits_val(s@.subrange(pos as int, i as int)),
            acc < pow10((i - pos) as nat),
            forall|j: int| pos <= j < end ==> is_digit(#[trigger] s@[j]),
        decreases end - i,
    {
        proof {
            assert(pow10((i - pos) as nat) <= pow10(20)) by {
                lemma_pow10_le((i - pos) as nat, 20);
            }
            lemma_pow10_20();
            assert(s@.subrange(pos as int, i + 1).drop_last() =~= s@.subrange(
                pos as int,
                i as int,
            ));
            assert(pow10(((i + 1) - pos) as nat) == 10 * pow10((i - pos) as nat));
        }
        acc = acc * 10 + ((s[i] - 48) as u128);
        i = i + 1;
    }
    if acc <= u64::MAX as u128 {
        Some((acc as u64, end))
    } else {
        None
    }
}

/// `pow10` is monotone in its exponent.
pub proof fn lemma_pow10_le(a: nat, b: nat)
    requires
        a <= b,
    ensures
        pow10(a) <= pow10(b),
    decreases b,
{
    if a < b {
        lemma_pow10_le(a, (b - 1) as nat);
        assert(pow10(b) == 10 * pow10((b - 1) as nat));
        assert(pow10((b - 1) as nat) >= 1) by {
            lemma_pow10_pos((b - 1) as nat);
        }
    }
}

/// `pow10` is positive.
pub proof fn lemma_pow10_pos(k: nat)
    ensures
        pow10(k) >= 1,
    decreases k,
{
    if k > 0 {
        lemma_pow10_pos((k - 1) as nat);
    }
}


/// A fresh copy of a byte string.
pub fn clone_bytes(src: &Vec<u8>) -> (r: Vec<u8>)
    ensures
        r@ == src@,
{
    let mut out: Vec<u8> = Vec::new();
    push_all(&mut out, src);
    assert(out@ =~= src@);
    out
}

} // verus!

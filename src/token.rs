// Reading one cell of text: the missing-value token, or a decimal number
// held as a fixed-point value in millionths.
use vstd::prelude::*;
use vstd::utf8::encode_utf8;

verus! {

/// The number of fixed-point units in one.
pub const UNITS_PER_ONE: u64 = 1_000_000;

/// The largest integer part that is read digit by digit; any larger one is
/// out of the value range.
const INT_PART_CAP: u64 = 10_000_000_000_000;

/// Whether a byte is an ASCII decimal digit.
pub open spec fn is_digit(c: u8) -> bool {
    48 <= c <= 57
}

/// Whether every byte is an ASCII decimal digit.
pub open spec fn all_digits(s: Seq<u8>) -> bool {
    forall|i: int| 0 <= i < s.len() ==> is_digit(#[trigger] s[i])
}

/// The number that a string of decimal digits denotes.
pub open spec fn digits_value(s: Seq<u8>) -> int
    decreases s.len(),
{
    if s.len() == 0 {
        0
    } else {
        digits_value(s.drop_last()) * 10 + (s.last() - 48)
    }
}

/// Ten to the power `n`.
pub open spec fn pow10(n: nat) -> int
    decreases n,
{
    if n == 0 {
        1
    } else {
        10 * pow10((n - 1) as nat)
    }
}

/// The fraction digits `f` in millionths, rounded half up on the seventh
/// digit.
pub open spec fn frac_units(f: Seq<u8>) -> int {
    if f.len() <= 6 {
        digits_value(f) * pow10((6 - f.len()) as nat)
    } else {
        digits_value(f.take(6)) + if f[6] >= 53 { 1int } else { 0int }
    }
}

/// The length of a leading sign, `-` or `+`.
pub open spec fn sign_len(b: Seq<u8>) -> int {
    if b.len() > 0 && (b[0] == 45 || b[0] == 43) {
        1
    } else {
        0
    }
}

/// The index of the first `.` at or after `from`, or the length.
pub open spec fn dot_at(b: Seq<u8>, from: int) -> int
    decreases b.len() - from,
{
    if from < 0 || from >= b.len() {
        b.len() as int
    } else if b[from] == 46 {
        from
    } else {
        dot_at(b, from + 1)
    }
}

/// The value of a decimal number `[sign] digits [. digits]`, with at least
/// one digit, in millionths; `None` when the text is no such number or the
/// value does not fit an `i64`.
pub open spec fn fixed_of(b: Seq<u8>) -> Option<i64> {
    let s = sign_len(b);
    let d = dot_at(b, s);
    let ip = b.subrange(s, d);
    let fp = if d < b.len() { b.subrange(d + 1, b.len() as int) } else { Seq::empty() };
    let m = digits_value(ip) * 1_000_000 + frac_units(fp);
    let v = if s == 1 && b[0] == 45 { -m } else { m };
    if all_digits(ip) && all_digits(fp) && ip.len() + fp.len() > 0 && i64::MIN <= v <= i64::MAX {
        Some(v as i64)
    } else {
        None
    }
}

/// A cell's text that is neither the missing-value token nor a number.
#[derive(Clone, Copy, Debug, PartialEq, Eq)]
pub struct InvalidNumber;

/// What a cell's text reads as: `None` for the missing-value token.
pub open spec fn cell_of(from: Seq<char>, none_encoding: Seq<char>) -> Result<Option<i64>, InvalidNumber> {
    if from == none_encoding {
        Ok(None)
    } else {
        match fixed_of(encode_utf8(from)) {
            Some(v) => Ok(Some(v)),
            None => Err(InvalidNumber),
        }
    }
}

proof fn lemma_digits_monotone(s: Seq<u8>, j: int)
    requires
        all_digits(s),
        0 <= j <= s.len(),
    ensures
        digits_value(s.take(j)) <= digits_value(s),
        0 <= digits_value(s),
    decreases s.len(),
{
    if s.len() > 0 {
        let t = s.drop_last();
        assert(all_digits(t)) by {
            assert forall|i: int| 0 <= i < t.len() implies is_digit(#[trigger] t[i]) by {
                assert(t[i] == s[i]);
            }
        }
        assert(is_digit(s[s.len() - 1]));
        if j < s.len() {
            lemma_digits_monotone(t, j);
            assert(t.take(j) =~= s.take(j));
        } else {
            lemma_digits_monotone(t, 0);
            assert(s.take(j) =~= s);
        }
    } else {
        assert(s.take(j) =~= s);
    }
}

/// The value of the digits `b[lo..hi]`, when it is at most the cap.
fn digits_capped(b: &[u8], lo: usize, hi: usize, cap: u64) -> (r: Option<u64>)
    requires
        lo <= hi <= b@.len(),
        all_digits(b@.subrange(lo as int, hi as int)),
        cap <= INT_PART_CAP,
    ensures
        r matches Some(v) ==> v == digits_value(b@.subrange(lo as int, hi as int)) && v <= cap,
        r is None ==> digits_value(b@.subrange(lo as int, hi as int)) > cap,
{
    let ghost s = b@.subrange(lo as int, hi as int);
    let mut acc: u64 = 0;
    let mut i: usize = lo;
    while i < hi
        invariant
            lo <= i <= hi <= b@.len(),
            s == b@.subrange(lo as int, hi as int),
            all_digits(s),
            cap <= INT_PART_CAP,
            acc == digits_value(s.take(i - lo)),
            acc <= cap,
        decreases hi - i,
    {
        assert(s.take(i - lo + 1).drop_last() =~= s.take(i - lo));
        assert(is_digit(s[i - lo]));
        acc = acc * 10 + (b[i] - 48) as u64;
        i = i + 1;
        if acc > cap {
            proof {
                lemma_digits_monotone(s, i - lo);
            }
            return None;
        }
    }
    assert(s.take(hi - lo) =~= s);
    Some(acc)
}

/// Ten to the power `n`, for `n` up to 6.
fn pow10_small(n: usize) -> (r: u64)
    requires
        n <= 6,
    ensures
        r == pow10(n as nat),
{
    reveal_with_fuel(pow10, 7);
    let mut r: u64 = 1;
    let mut k: usize = 0;
    while k < n
        invariant
            k <= n <= 6,
            r == pow10(k as nat),
            r <= 1_000_000,
        decreases n - k,
    {
        proof {
            reveal_with_fuel(pow10, 7);
        }
        r = r * 10;
        k = k + 1;
    }
    r
}

/// The index of the first `.` at or after `from`, or the length.
fn find_dot(b: &[u8], from: usize) -> (r: usize)
    requires
        from <= b@.len(),
    ensures
        r == dot_at(b@, from as int),
        from <= r <= b@.len(),
{
    let mut i: usize = from;
    while i < b.len()
        invariant
            from <= i <= b@.len(),
            dot_at(b@, from as int) == dot_at(b@, i as int),
        decreases b@.len() - i,
    {
        if b[i] == 46 {
            return i;
        }
        i = i + 1;
    }
    i
}

/// Whether `b[lo..hi]` holds digits only.
fn digits_only(b: &[u8], lo: usize, hi: usize) -> (r: bool)
    requires
        lo <= hi <= b@.len(),
    ensures
        r == all_digits(b@.subrange(lo as int, hi as int)),
{
    let mut i: usize = lo;
    while i < hi
        invariant
            lo <= i <= hi <= b@.len(),
            forall|k: int| lo <= k < i ==> is_digit(#[trigger] b@[k]),
        decreases hi - i,
    {
        if b[i] < 48 || b[i] > 57 {
            assert(!is_digit(b@.subrange(lo as int, hi as int)[i - lo]));
            return false;
        }
        i = i + 1;
    }
    assert forall|k: int| 0 <= k < hi - lo implies is_digit(#[trigger] b@.subrange(lo as int, hi as int)[k]) by {
        assert(b@.subrange(lo as int, hi as int)[k] == b@[lo + k]);
    }
    true
}

proof fn lemma_pow10_pos(n: nat)
    ensures
        pow10(n) >= 1,
    decreases n,
{
    if n > 0 {
        lemma_pow10_pos((n - 1) as nat);
    }
}

proof fn lemma_digits_below_pow10(s: Seq<u8>)
    requires
        all_digits(s),
    ensures
        0 <= digits_value(s) < pow10(s.len()),
    decreases s.len(),
{
    if s.len() > 0 {
        let t = s.drop_last();
        assert(all_digits(t)) by {
            assert forall|i: int| 0 <= i < t.len() implies is_digit(#[trigger] t[i]) by {
                assert(t[i] == s[i]);
            }
        }
        assert(is_digit(s[s.len() - 1]));
        lemma_digits_below_pow10(t);
    }
}

/// The value of at most six digits `b[lo..hi]`.
fn small_digits(b: &[u8], lo: usize, hi: usize) -> (r: u64)
    requires
        lo <= hi <= b@.len(),
        hi - lo <= 6,
        all_digits(b@.subrange(lo as int, hi as int)),
    ensures
        r == digits_value(b@.subrange(lo as int, hi as int)),
        r < pow10((hi - lo) as nat),
        r < 1_000_000,
{
    let ghost s = b@.subrange(lo as int, hi as int);
    proof {
        lemma_digits_below_pow10(s);
        reveal_with_fuel(pow10, 7);
    }
    let mut acc: u64 = 0;
    let mut i: usize = lo;
    while i < hi
        invariant
            lo <= i <= hi <= b@.len(),
            hi - lo <= 6,
            s == b@.subrange(lo as int, hi as int),
            all_digits(s),
            acc == digits_value(s.take(i - lo)),
            acc < pow10((i - lo) as nat),
        decreases hi - i,
    {
        proof {
            reveal_with_fuel(pow10, 7);
        }
        assert(s.take(i - lo + 1).drop_last() =~= s.take(i - lo));
        assert(is_digit(s[i - lo]));
        acc = acc * 10 + (b[i] - 48) as u64;
        i = i + 1;
    }
    assert(s.take(hi - lo) =~= s);
    acc
}

/// Reads a decimal number `[sign] digits [. digits]` as millionths.
fn parse_fixed(b: &[u8]) -> (r: Option<i64>)
    ensures
        r == fixed_of(b@),
{
    let n: usize = b.len();
    let s: usize = if n > 0 && (b[0] == 45 || b[0] == 43) { 1 } else { 0 };
    let negative: bool = s == 1 && b[0] == 45;
    let d: usize = find_dot(b, s);
    let fs: usize = if d < n { d + 1 } else { n };
    let fl: usize = n - fs;
    let ghost ip = b@.subrange(s as int, d as int);
    let ghost fp = if d < n { b@.subrange(d + 1, n as int) } else { Seq::<u8>::empty() };
    assert(fp =~= b@.subrange(fs as int, n as int));
    if !digits_only(b, s, d) || !digits_only(b, fs, n) || (d - s) + fl == 0 {
        return None;
    }
    let fv: u64 = if fl <= 6 {
        let v = small_digits(b, fs, n);
        let p = pow10_small(6 - fl);
        proof {
            reveal_with_fuel(pow10, 7);
            assert(v * p <= 1_000_000 * 1_000_000) by (nonlinear_arith)
                requires v < 1_000_000, p <= 1_000_000, v >= 0, p >= 0;
        }
        v * p
    } else {
        assert(fp.take(6) =~= b@.subrange(fs as int, fs + 6));
        assert(all_digits(b@.subrange(fs as int, fs + 6))) by {
            assert forall|i: int| 0 <= i < 6 implies is_digit(#[trigger] b@.subrange(fs as int, fs + 6)[i]) by {
                assert(b@.subrange(fs as int, fs + 6)[i] == fp[i]);
            }
        }
        let v = small_digits(b, fs, fs + 6);
        if b[fs + 6] >= 53 { v + 1 } else { v }
    };
    assert(fv == frac_units(fp));
    proof {
        lemma_digits_below_pow10(fp);
        if fp.len() <= 6 {
            lemma_pow10_pos((6 - fp.len()) as nat);
            assert(digits_value(fp) * pow10((6 - fp.len()) as nat) >= 0) by (nonlinear_arith)
                requires digits_value(fp) >= 0, pow10((6 - fp.len()) as nat) >= 1;
        }
    }
    let iv = match digits_capped(b, s, d, INT_PART_CAP) {
        Some(v) => v,
        None => {
            return None;
        },
    };
    let m: i128 = iv as i128 * 1_000_000 + fv as i128;
    let v: i128 = if negative { -m } else { m };
    if v < i64::MIN as i128 || v > i64::MAX as i128 {
        return None;
    }
    Some(v as i64)
}

/// Reads one cell's text: `Ok(None)` for the missing-value token, the
/// number in millionths otherwise, and `InvalidNumber` for text that is
/// neither.
pub fn parse_none_encoding(from: &String, none_encoding: &String) -> (r: Result<Option<i64>, InvalidNumber>)
    ensures
        r == cell_of(from@, none_encoding@),
{
    if from.eq(none_encoding) {
        Ok(None)
    } else {
        match parse_fixed(from.as_str().as_bytes()) {
            Some(v) => Ok(Some(v)),
            None => Err(InvalidNumber),
        }
    }
}

} // verus!

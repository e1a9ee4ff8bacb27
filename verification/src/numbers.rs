//! Decimal text of integers (printing and parsing), the textual grammar
//! of a floating-point frame, and UTF-8 validity of decoded text.
use vstd::prelude::*;

verus! {

broadcast use vstd::std_specs::vec::group_vec_axioms, vstd::seq::group_seq_axioms;

/// Decimal digits of an unsigned number, most significant first.
pub open spec fn dec_u(n: nat) -> Seq<u8>
    decreases n,
{
    if n < 10 {
        seq![(n + 48) as u8]
    } else {
        dec_u(n / 10) + seq![((n % 10) + 48) as u8]
    }
}

/// Decimal text of a signed 64-bit integer, as std prints it: a minus
/// sign for negative numbers, then the digits of the magnitude.
pub open spec fn dec_i64(i: int) -> Seq<u8> {
    if i < 0 {
        seq![45u8] + dec_u((-i) as nat)
    } else {
        dec_u(i as nat)
    }
}

pub open spec fn is_digit(b: u8) -> bool {
    48 <= b <= 57
}

pub open spec fn all_digits(s: Seq<u8>) -> bool {
    forall|i: int| 0 <= i < s.len() ==> is_digit(#[trigger] s[i])
}

pub proof fn lemma_dec_u_digits(n: nat)
    ensures
        dec_u(n).len() >= 1,
        all_digits(dec_u(n)),
    decreases n,
{
    if n >= 10 {
        lemma_dec_u_digits(n / 10);
    }
}

/// The numeric value of a digit string.
pub open spec fn digits_val(s: Seq<u8>) -> int
    decreases s.len(),
{
    if s.len() == 0 {
        0
    } else {
        digits_val(s.drop_last()) * 10 + (s.last() - 48)
    }
}

pub proof fn lemma_digits_val_nonneg(s: Seq<u8>)
    requires
        all_digits(s),
    ensures
        digits_val(s) >= 0,
    decreases s.len(),
{
    if s.len() > 0 {
        assert(is_digit(s[s.len() - 1]));
        assert(all_digits(s.drop_last()));
        lemma_digits_val_nonneg(s.drop_last());
    }
}

pub proof fn lemma_digits_val_dec_u(n: nat)
    ensures
        digits_val(dec_u(n)) == n,
    decreases n,
{
    if n < 10 {
        reveal_with_fuel(digits_val, 2);
        assert(dec_u(n) =~= seq![(n + 48) as u8]);
        assert(dec_u(n).drop_last() =~= Seq::<u8>::empty());
    } else {
        lemma_digits_val_dec_u(n / 10);
        let s = dec_u(n);
        assert(s.drop_last() =~= dec_u(n / 10));
        assert(s.last() == ((n % 10) + 48) as u8);
    }
}

/// What `str::parse::<i64>` accepts and returns: an optional single
/// sign, then at least one digit, the whole text, with the value in
/// the 64-bit signed range.
pub open spec fn parse_i64_of(s: Seq<u8>) -> Option<i64> {
    let neg = s.len() > 0 && s[0] == 45;
    let ds = if s.len() > 0 && (s[0] == 45 || s[0] == 43) {
        s.subrange(1, s.len() as int)
    } else {
        s
    };
    if ds.len() == 0 || !all_digits(ds) {
        None
    } else {
        let v = if neg {
            -digits_val(ds)
        } else {
            digits_val(ds)
        };
        if i64::MIN <= v <= i64::MAX {
            Some(v as i64)
        } else {
            None
        }
    }
}

/// Printing then parsing a 64-bit integer gives the integer back.
pub proof fn lemma_parse_dec_i64(i: int)
    requires
        i64::MIN <= i <= i64::MAX,
    ensures
        parse_i64_of(dec_i64(i)) == Some(i as i64),
{
    if i < 0 {
        let m = (-i) as nat;
        lemma_dec_u_digits(m);
        lemma_digits_val_dec_u(m);
        let s = dec_i64(i);
        assert(s[0] == 45u8);
        assert(s.subrange(1, s.len() as int) =~= dec_u(m));
    } else {
        lemma_dec_u_digits(i as nat);
        lemma_digits_val_dec_u(i as nat);
        let s = dec_i64(i);
        assert(is_digit(s[0]));
        assert(s[0] != 45u8 && s[0] != 43u8);
    }
}

/// Appending digits never shrinks the value of a digit string.
pub proof fn lemma_digits_val_prefix(s: Seq<u8>, n: int)
    requires
        all_digits(s),
        0 <= n <= s.len(),
    ensures
        digits_val(s) >= digits_val(s.take(n)),
    decreases s.len() - n,
{
    if n < s.len() {
        lemma_digits_val_prefix(s, n + 1);
        let t = s.take(n + 1);
        assert(t.drop_last() =~= s.take(n));
        assert(all_digits(s.take(n)));
        lemma_digits_val_nonneg(s.take(n));
        assert(digits_val(t) == digits_val(s.take(n)) * 10 + (t.last() - 48));
        assert(digits_val(s.take(n)) * 10 >= digits_val(s.take(n))) by (nonlinear_arith)
            requires digits_val(s.take(n)) >= 0;
    } else {
        assert(s.take(n) =~= s);
    }
}

/// The digits of an unsigned 64-bit number, as bytes.
pub fn u64_to_dec(n: u64) -> (r: Vec<u8>)
    ensures
        r@ == dec_u(n as nat),
    decreases n,
{
    if n < 10 {
        let mut r: Vec<u8> = Vec::new();
        r.push((n as u8) + 48);
        assert(r@ =~= dec_u(n as nat));
        r
    } else {
        let mut r = u64_to_dec(n / 10);
        r.push(((n % 10) as u8) + 48);
        assert(r@ =~= dec_u(n as nat));
        r
    }
}

/// The decimal text of a signed 64-bit integer, as std prints it.
pub fn i64_to_dec(i: i64) -> (r: Vec<u8>)
    ensures
        r@ == dec_i64(i as int),
{
    if i >= 0 {
        u64_to_dec(i as u64)
    } else {
        let m: u64 = if i == i64::MIN {
            9223372036854775808u64
        } else {
            (-i) as u64
        };
        let ds = u64_to_dec(m);
        let mut r: Vec<u8> = Vec::new();
        r.push(45);
        let mut k: usize = 0;
        while k < ds.len()
            invariant
                0 <= k <= ds.len(),
                r@ == seq![45u8] + ds@.take(k as int),
            decreases ds.len() - k,
        {
            r.push(ds[k]);
            assert(r@ =~= seq![45u8] + ds@.take(k + 1));
            k = k + 1;
        }
        assert(ds@.take(ds@.len() as int) =~= ds@);
        r
    }
}

/// What `str::parse::<i64>` returns on this text.
pub fn parse_i64(s: &[u8]) -> (r: Option<i64>)
    ensures
        r == parse_i64_of(s@),
{
    let ghost whole = s@;
    let mut start: usize = 0;
    let ghost neg_g = s@.len() > 0 && s@[0] == 45;
    let mut neg = false;
    if s.len() > 0 && (s[0] == 45 || s[0] == 43) {
        neg = s[0] == 45;
        start = 1;
    }
    let ghost ds = if whole.len() > 0 && (whole[0] == 45 || whole[0] == 43) {
        whole.subrange(1, whole.len() as int)
    } else {
        whole
    };
    assert(ds =~= whole.subrange(start as int, whole.len() as int));
    if s.len() == start {
        return None;
    }
    let mut mag: u64 = 0;
    let mut k: usize = start;
    while k < s.len()
        invariant
            start <= k <= s@.len(),
            s@.len() > start,
            start == if s@.len() > 0 && (s@[0] == 45 || s@[0] == 43) {
                1int
            } else {
                0int
            },
            neg == (s@.len() > 0 && s@[0] == 45),
            ds == s@.subrange(start as int, s@.len() as int),
            all_digits(ds.take(k - start)),
            mag == digits_val(ds.take(k - start)),
        decreases s@.len() - k,
    {
        let b = s[k];
        if b < 48 || b > 57 {
            assert(!is_digit(ds[k - start]));
            assert(!all_digits(ds));
            return None;
        }
        let d = (b - 48) as u64;
        assert(ds.take(k + 1 - start).drop_last() =~= ds.take(k - start));
        assert(ds.take(k + 1 - start).last() == b);
        assert(ds.take(k + 1 - start) =~= ds.take(k - start).push(b));
        assert(all_digits(ds.take(k + 1 - start)));
        if mag > (u64::MAX - d) / 10 {
            proof {
                assert(s@.subrange(0, s@.len() as int) =~= s@);
                if all_digits(ds) {
                    assert(digits_val(ds.take(k + 1 - start)) == mag * 10 + d);
                    assert(mag * 10 + d > u64::MAX) by (nonlinear_arith)
                        requires mag > (u64::MAX - d) / 10, d <= 9;
                    lemma_digits_val_prefix(ds, k + 1 - start);
                    assert(digits_val(ds) > i64::MAX);
                    assert(-digits_val(ds) < i64::MIN);
                }
            }
            return None;
        }
        mag = mag * 10 + d;
        k = k + 1;
    }
    assert(ds.take(s@.len() - start) =~= ds);
    proof {
        lemma_digits_val_nonneg(ds);
    }
    if neg {
        if mag > 9223372036854775808u64 {
            return None;
        }
        if mag == 9223372036854775808u64 {
            return Some(i64::MIN);
        }
        Some(-(mag as i64))
    } else {
        if mag > 9223372036854775807u64 {
            return None;
        }
        Some(mag as i64)
    }
}

// ---------- the textual grammar of a double frame ----------

/// ASCII lower-casing of one byte.
pub open spec fn low(b: u8) -> u8 {
    if 65 <= b <= 90 {
        (b + 32) as u8
    } else {
        b
    }
}

/// ASCII lower-casing of a byte string.
pub open spec fn lower(s: Seq<u8>) -> Seq<u8> {
    s.map_values(|b: u8| low(b))
}

/// The text after an optional single leading sign.
pub open spec fn strip_sign(s: Seq<u8>) -> Seq<u8> {
    if s.len() > 0 && (s[0] == 43 || s[0] == 45) {
        s.subrange(1, s.len() as int)
    } else {
        s
    }
}

/// Text that `str::parse::<f64>` turns into a NaN: an optional sign,
/// then `nan` in any letter case.
pub open spec fn is_nan_text(s: Seq<u8>) -> bool {
    lower(strip_sign(s)) == seq![110u8, 97u8, 110u8]
}

/// Index of the first non-digit byte at or after `i`, or the length.
pub open spec fn digits_end(s: Seq<u8>, i: int) -> int
    decreases s.len() - i,
{
    if i < 0 || i >= s.len() {
        s.len() as int
    } else if is_digit(s[i]) {
        digits_end(s, i + 1)
    } else {
        i
    }
}

/// An exponent tail: an optional single sign, then at least one digit,
/// spanning the whole of `s.subrange(i, len)`.
pub open spec fn is_exp_tail(s: Seq<u8>, i: int) -> bool {
    let j = if i < s.len() && (s[i] == 43 || s[i] == 45) {
        i + 1
    } else {
        i
    };
    j < s.len() && digits_end(s, j) == s.len()
}

/// A number in the floating-point grammar: digits with an optional dot
/// (at least one digit on one side of it), then an optional exponent.
pub open spec fn is_float_number(s: Seq<u8>) -> bool {
    let d1 = digits_end(s, 0);
    if d1 == s.len() {
        d1 > 0
    } else if s[d1] == 46 {
        let d2 = digits_end(s, d1 + 1);
        let some_digit = d1 > 0 || d2 > d1 + 1;
        if d2 == s.len() {
            some_digit
        } else {
            some_digit && (s[d2] == 101 || s[d2] == 69) && is_exp_tail(s, d2 + 1)
        }
    } else if s[d1] == 101 || s[d1] == 69 {
        d1 > 0 && is_exp_tail(s, d1 + 1)
    } else {
        false
    }
}

/// Text that `str::parse::<f64>` accepts: an optional sign, then an
/// infinity word, `nan`, or a number in the grammar above.
pub open spec fn is_float_text(s: Seq<u8>) -> bool {
    let t = strip_sign(s);
    ||| lower(t) == seq![105u8, 110u8, 102u8]
    ||| lower(t) == seq![105u8, 110u8, 102u8, 105u8, 110u8, 105u8, 116u8, 121u8]
    ||| lower(t) == seq![110u8, 97u8, 110u8]
    ||| is_float_number(t)
}

/// ASCII lower-casing of a byte.
pub fn low_byte(b: u8) -> (r: u8)
    ensures
        r == low(b),
{
    if 65 <= b && b <= 90 {
        b + 32
    } else {
        b
    }
}

/// ASCII lower-casing of a byte string.
pub fn lower_bytes(s: &[u8]) -> (r: Vec<u8>)
    ensures
        r@ == lower(s@),
{
    let mut r: Vec<u8> = Vec::new();
    let mut k: usize = 0;
    while k < s.len()
        invariant
            0 <= k <= s@.len(),
            r@ == lower(s@.take(k as int)),
        decreases s@.len() - k,
    {
        r.push(low_byte(s[k]));
        assert(r@ =~= lower(s@.take(k + 1)));
        k = k + 1;
    }
    assert(s@.take(s@.len() as int) =~= s@);
    r
}

/// Whether two byte strings are equal.
pub fn bytes_eq(a: &[u8], b: &[u8]) -> (r: bool)
    ensures
        r <==> a@ == b@,
{
    if a.len() != b.len() {
        assert(a@.len() != b@.len());
        return false;
    }
    let mut k: usize = 0;
    while k < a.len()
        invariant
            0 <= k <= a@.len(),
            a@.len() == b@.len(),
            a@.take(k as int) == b@.take(k as int),
        decreases a@.len() - k,
    {
        if a[k] != b[k] {
            assert(a@[k as int] != b@[k as int]);
            return false;
        }
        assert(a@.take(k + 1) =~= a@.take(k as int).push(a@[k as int]));
        assert(b@.take(k + 1) =~= b@.take(k as int).push(b@[k as int]));
        k = k + 1;
    }
    assert(a@ =~= a@.take(a@.len() as int));
    assert(b@ =~= b@.take(b@.len() as int));
    true
}

fn digits_end_exec(s: &[u8], i: usize) -> (r: usize)
    requires
        i <= s@.len(),
    ensures
        r == digits_end(s@, i as int),
        i <= r <= s@.len(),
    decreases s@.len() - i,
{
    if i >= s.len() {
        return i;
    }
    if 48 <= s[i] && s[i] <= 57 {
        digits_end_exec(s, i + 1)
    } else {
        i
    }
}

fn is_exp_tail_exec(s: &[u8], i: usize) -> (r: bool)
    requires
        i <= s@.len(),
    ensures
        r == is_exp_tail(s@, i as int),
{
    let j = if i < s.len() && (s[i] == 43 || s[i] == 45) {
        i + 1
    } else {
        i
    };
    if j >= s.len() {
        return false;
    }
    digits_end_exec(s, j) == s.len()
}

fn is_float_number_exec(s: &[u8]) -> (r: bool)
    ensures
        r == is_float_number(s@),
{
    let d1 = digits_end_exec(s, 0);
    if d1 == s.len() {
        d1 > 0
    } else if s[d1] == 46 {
        let d2 = digits_end_exec(s, d1 + 1);
        let some_digit = d1 > 0 || d2 > d1 + 1;
        if d2 == s.len() {
            some_digit
        } else {
            some_digit && (s[d2] == 101 || s[d2] == 69) && is_exp_tail_exec(s, d2 + 1)
        }
    } else if s[d1] == 101 || s[d1] == 69 {
        d1 > 0 && is_exp_tail_exec(s, d1 + 1)
    } else {
        false
    }
}

/// Whether `str::parse::<f64>` would turn this text into a NaN.
pub fn is_nan_text_exec(s: &[u8]) -> (r: bool)
    ensures
        r == is_nan_text(s@),
{
    let start: usize = if s.len() > 0 && (s[0] == 43 || s[0] == 45) {
        1
    } else {
        0
    };
    if s.len() - start != 3 {
        assert(strip_sign(s@).len() != 3);
        assert(lower(strip_sign(s@)).len() != 3);
        return false;
    }
    let r = low_byte(s[start]) == 110 && low_byte(s[start + 1]) == 97 && low_byte(
        s[start + 2],
    ) == 110;
    proof {
        let t = strip_sign(s@);
        assert(t =~= s@.subrange(start as int, s@.len() as int));
        if r {
            assert(lower(t) =~= seq![110u8, 97u8, 110u8]);
        } else {
            assert(lower(t) != seq![110u8, 97u8, 110u8]);
        }
    }
    r
}

/// Whether `str::parse::<f64>` accepts this text.
pub fn is_float_text_exec(s: &[u8]) -> (r: bool)
    ensures
        r == is_float_text(s@),
{
    let start: usize = if s.len() > 0 && (s[0] == 43 || s[0] == 45) {
        1
    } else {
        0
    };
    let mut t: Vec<u8> = Vec::new();
    let mut k: usize = start;
    while k < s.len()
        invariant
            start <= k <= s@.len(),
            t@ == s@.subrange(start as int, k as int),
        decreases s@.len() - k,
    {
        t.push(s[k]);
        assert(t@ =~= s@.subrange(start as int, k + 1));
        k = k + 1;
    }
    proof {
        assert(strip_sign(s@) =~= s@.subrange(start as int, s@.len() as int));
    }
    let lo = lower_bytes(t.as_slice());
    let inf: [u8; 3] = [105, 110, 102];
    let infinity: [u8; 8] = [105, 110, 102, 105, 110, 105, 116, 121];
    let nan: [u8; 3] = [110, 97, 110];
    proof {
        assert(inf@ =~= seq![105u8, 110u8, 102u8]);
        assert(infinity@ =~= seq![105u8, 110u8, 102u8, 105u8, 110u8, 105u8, 116u8, 121u8]);
        assert(nan@ =~= seq![110u8, 97u8, 110u8]);
    }
    if bytes_eq(lo.as_slice(), inf.as_slice()) {
        return true;
    }
    if bytes_eq(lo.as_slice(), infinity.as_slice()) {
        return true;
    }
    if bytes_eq(lo.as_slice(), nan.as_slice()) {
        return true;
    }
    is_float_number_exec(t.as_slice())
}

// ---------- UTF-8 validity ----------

pub open spec fn is_cont(b: u8) -> bool {
    128 <= b <= 191
}

/// Validity of the byte string as UTF-8, checked from index `i` on.
pub open spec fn is_utf8_from(s: Seq<u8>, i: int) -> bool
    decreases s.len() - i,
{
    if i < 0 {
        false
    } else if i >= s.len() {
        true
    } else {
        let b = s[i];
        if b < 128 {
            is_utf8_from(s, i + 1)
        } else if 194 <= b <= 223 {
            i + 1 < s.len() && is_cont(s[i + 1]) && is_utf8_from(s, i + 2)
        } else if b == 224 {
            i + 2 < s.len() && 160 <= s[i + 1] <= 191 && is_cont(s[i + 2]) && is_utf8_from(
                s,
                i + 3,
            )
        } else if 225 <= b <= 236 || b == 238 || b == 239 {
            i + 2 < s.len() && is_cont(s[i + 1]) && is_cont(s[i + 2]) && is_utf8_from(s, i + 3)
        } else if b == 237 {
            i + 2 < s.len() && 128 <= s[i + 1] <= 159 && is_cont(s[i + 2]) && is_utf8_from(
                s,
                i + 3,
            )
        } else if b == 240 {
            i + 3 < s.len() && 144 <= s[i + 1] <= 191 && is_cont(s[i + 2]) && is_cont(s[i + 3])
                && is_utf8_from(s, i + 4)
        } else if 241 <= b <= 243 {
            i + 3 < s.len() && is_cont(s[i + 1]) && is_cont(s[i + 2]) && is_cont(s[i + 3])
                && is_utf8_from(s, i + 4)
        } else if b == 244 {
            i + 3 < s.len() && 128 <= s[i + 1] <= 143 && is_cont(s[i + 2]) && is_cont(s[i + 3])
                && is_utf8_from(s, i + 4)
        } else {
            false
        }
    }
}

/// Validity of the whole byte string as UTF-8.
pub open spec fn is_utf8(s: Seq<u8>) -> bool {
    is_utf8_from(s, 0)
}

fn is_utf8_from_exec(s: &[u8], i: usize) -> (r: bool)
    requires
        i <= s@.len(),
    ensures
        r == is_utf8_from(s@, i as int),
    decreases s@.len() - i,
{
    if i >= s.len() {
        return true;
    }
    let left = s.len() - i;
    let b = s[i];
    if b < 128 {
        is_utf8_from_exec(s, i + 1)
    } else if 194 <= b && b <= 223 {
        left > 1 && 128 <= s[i + 1] && s[i + 1] <= 191 && is_utf8_from_exec(s, i + 2)
    } else if b == 224 {
        left > 2 && 160 <= s[i + 1] && s[i + 1] <= 191 && 128 <= s[i + 2] && s[i + 2] <= 191
            && is_utf8_from_exec(s, i + 3)
    } else if (225 <= b && b <= 236) || b == 238 || b == 239 {
        left > 2 && 128 <= s[i + 1] && s[i + 1] <= 191 && 128 <= s[i + 2] && s[i + 2] <= 191
            && is_utf8_from_exec(s, i + 3)
    } else if b == 237 {
        left > 2 && 128 <= s[i + 1] && s[i + 1] <= 159 && 128 <= s[i + 2] && s[i + 2] <= 191
            && is_utf8_from_exec(s, i + 3)
    } else if b == 240 {
        left > 3 && 144 <= s[i + 1] && s[i + 1] <= 191 && 128 <= s[i + 2] && s[i + 2] <= 191 && 128
            <= s[i + 3] && s[i + 3] <= 191 && is_utf8_from_exec(s, i + 4)
    } else if 241 <= b && b <= 243 {
        left > 3 && 128 <= s[i + 1] && s[i + 1] <= 191 && 128 <= s[i + 2] && s[i + 2] <= 191 && 128
            <= s[i + 3] && s[i + 3] <= 191 && is_utf8_from_exec(s, i + 4)
    } else if b == 244 {
        left > 3 && 128 <= s[i + 1] && s[i + 1] <= 143 && 128 <= s[i + 2] && s[i + 2] <= 191 && 128
            <= s[i + 3] && s[i + 3] <= 191 && is_utf8_from_exec(s, i + 4)
    } else {
        false
    }
}

/// Whether the byte string is valid UTF-8.
pub fn is_utf8_exec(s: &[u8]) -> (r: bool)
    ensures
        r == is_utf8(s@),
{
    is_utf8_from_exec(s, 0)
}

/// A byte string of ASCII bytes is valid UTF-8.
pub proof fn lemma_ascii_utf8(s: Seq<u8>, i: int)
    requires
        0 <= i <= s.len(),
        forall|j: int| 0 <= j < s.len() ==> #[trigger] s[j] < 128,
    ensures
        is_utf8_from(s, i),
    decreases s.len() - i,
{
    if i < s.len() {
        lemma_ascii_utf8(s, i + 1);
    }
}

} // verus!

//! Timestamp codec: converts between the feed's wire timestamp format
//! (`<seconds>.<microseconds>`, a decimal string) and a sortable integer
//! count of microseconds since the epoch, exactly and in both directions.

use vstd::prelude::*;
use crate::ArchiveError;

verus! {

/// Microseconds per second: the factor between the two wire components.
pub const MICROS_PER_SECOND: u64 = 1_000_000;

/// Width the seconds component is zero-padded to when rendering.
pub const SECONDS_WIDTH: usize = 10;

/// Width the fraction component is zero-padded to when rendering.
pub const FRACTION_WIDTH: usize = 6;

// ---------------------------------------------------------------------------
// Decimal digits
// ---------------------------------------------------------------------------

/// `c` is an ASCII decimal digit.
pub open spec fn is_digit(c: char) -> bool {
    48 <= c as u32 <= 57
}

/// Numeric value of a digit character.
pub open spec fn digit_val(c: char) -> nat {
    ((c as u32) - 48) as nat
}

/// Digit character for a value below ten.
pub open spec fn digit_char(d: nat) -> char {
    if d == 0 { '0' }
    else if d == 1 { '1' }
    else if d == 2 { '2' }
    else if d == 3 { '3' }
    else if d == 4 { '4' }
    else if d == 5 { '5' }
    else if d == 6 { '6' }
    else if d == 7 { '7' }
    else if d == 8 { '8' }
    else { '9' }
}

/// Every character of `s` is a decimal digit.
pub open spec fn all_digits(s: Seq<char>) -> bool {
    forall|i: int| 0 <= i < s.len() ==> is_digit(s[i])
}

/// Value of a big-endian digit string (leading zeros allowed; empty is zero).
pub open spec fn digits_val(s: Seq<char>) -> nat
    decreases s.len(),
{
    if s.len() == 0 {
        0
    } else {
        digits_val(s.drop_last()) * 10 + digit_val(s.last())
    }
}

/// Ten to the `k`.
pub open spec fn pow10(k: nat) -> nat
    decreases k,
{
    if k == 0 { 1 } else { 10 * pow10((k - 1) as nat) }
}

/// Shortest decimal rendering of `n` (a single `'0'` for zero).
pub open spec fn dec_str(n: nat) -> Seq<char>
    decreases n,
{
    if n < 10 {
        seq![digit_char(n)]
    } else {
        dec_str(n / 10).push(digit_char(n % 10))
    }
}

/// `s` left-padded with `'0'` up to width `w` (unchanged if already as wide).
pub open spec fn zero_pad(s: Seq<char>, w: nat) -> Seq<char> {
    if s.len() >= w {
        s
    } else {
        Seq::new((w - s.len()) as nat, |i: int| '0') + s
    }
}

// ---------------------------------------------------------------------------
// The wire format
// ---------------------------------------------------------------------------

/// `i` is the position of the single decimal point of a well-formed wire
/// timestamp: digits before it, digits after it, at least one of each.
pub open spec fn split_ok(s: Seq<char>, i: int) -> bool {
    &&& 1 <= i
    &&& i + 1 < s.len()
    &&& s[i] == '.'
    &&& forall|j: int| 0 <= j < s.len() && j != i ==> is_digit(s[j])
}

/// `s` is a parseable wire timestamp: exactly one decimal point with a
/// non-empty run of digits on each side.
pub open spec fn wire_valid(s: Seq<char>) -> bool {
    exists|i: int| split_ok(s, i)
}

/// Position of the decimal point of a valid wire timestamp.
pub open spec fn dot_index(s: Seq<char>) -> int {
    choose|i: int| split_ok(s, i)
}

/// The seconds component (digits before the point).
pub open spec fn seconds_part(s: Seq<char>) -> Seq<char> {
    s.subrange(0, dot_index(s))
}

/// The fraction component (digits after the point), in microseconds.
pub open spec fn fraction_part(s: Seq<char>) -> Seq<char> {
    s.subrange(dot_index(s) + 1, s.len() as int)
}

/// Mathematical value of a valid wire timestamp, in microseconds.
pub open spec fn wire_value(s: Seq<char>) -> nat {
    digits_val(seconds_part(s)) * (MICROS_PER_SECOND as nat) + digits_val(fraction_part(s))
}

/// `s` parses and its value fits the internal representation.
pub open spec fn wire_ok(s: Seq<char>) -> bool {
    wire_valid(s) && wire_value(s) <= u64::MAX as nat
}

/// The canonical rendering of `m` microseconds: seconds zero-padded to at
/// least ten digits, a point, the fraction zero-padded to exactly six.
pub open spec fn wire_of(m: u64) -> Seq<char> {
    zero_pad(dec_str((m / MICROS_PER_SECOND) as nat), SECONDS_WIDTH as nat)
        + seq!['.']
        + zero_pad(dec_str((m % MICROS_PER_SECOND) as nat), FRACTION_WIDTH as nat)
}

/// A wire timestamp in the feed's own shape: ten-digit seconds, the point,
/// six-digit fraction.
pub open spec fn canonical_wire(s: Seq<char>) -> bool {
    s.len() == 17 && split_ok(s, SECONDS_WIDTH as int)
}

// ---------------------------------------------------------------------------
// Rendering (decode direction)
// ---------------------------------------------------------------------------

/// One-character string for a digit value.
fn digit_str(d: u64) -> (r: &'static str)
    requires
        d < 10,
    ensures
        r@ == seq![digit_char(d as nat)],
{
    proof {
        reveal_strlit("0");
        reveal_strlit("1");
        reveal_strlit("2");
        reveal_strlit("3");
        reveal_strlit("4");
        reveal_strlit("5");
        reveal_strlit("6");
        reveal_strlit("7");
        reveal_strlit("8");
        reveal_strlit("9");
    }
    let r: &'static str = if d == 0 { "0" }
    else if d == 1 { "1" }
    else if d == 2 { "2" }
    else if d == 3 { "3" }
    else if d == 4 { "4" }
    else if d == 5 { "5" }
    else if d == 6 { "6" }
    else if d == 7 { "7" }
    else if d == 8 { "8" }
    else { "9" };
    proof {
        assert(r@ =~= seq![digit_char(d as nat)]);
    }
    r
}

/// Shortest decimal rendering of `n`.
fn dec_string(n: u64) -> (r: String)
    ensures
        r@ == dec_str(n as nat),
    decreases n,
{
    if n < 10 {
        String::from_str(digit_str(n))
    } else {
        let mut s = dec_string(n / 10);
        s.append(digit_str(n % 10));
        proof {
            assert(s@ =~= dec_str((n / 10) as nat).push(digit_char((n % 10) as nat)));
        }
        s
    }
}

/// Left-pads `s` with zeros to `width` characters.
fn pad_left(s: String, width: usize) -> (r: String)
    ensures
        r@ == zero_pad(s@, width as nat),
{
    let n = s.unicode_len();
    if n >= width {
        return s;
    }
    proof {
        reveal_strlit("0");
    }
    let mut zeros = String::new();
    let mut k: usize = 0;
    while k < width - n
        invariant
            n == s@.len(),
            n < width,
            k <= width - n,
            zeros@ =~= Seq::new(k as nat, |i: int| '0'),
        decreases width - n - k,
    {
        zeros.append("0");
        k = k + 1;
        proof {
            reveal_strlit("0");
            assert(zeros@ =~= Seq::new(k as nat, |i: int| '0'));
        }
    }
    let r = zeros.concat(s.as_str());
    proof {
        assert(r@ =~= zero_pad(s@, width as nat));
    }
    r
}

/// Renders `micros` as a wire timestamp: the seconds zero-padded to at least
/// ten digits, a decimal point, the microsecond fraction zero-padded to
/// exactly six digits.
pub fn unix_micros_to_slack_ts(micros: u64) -> (r: String)
    ensures
        r@ == wire_of(micros),
{
    proof {
        reveal_strlit(".");
    }
    let sec = micros / MICROS_PER_SECOND;
    let frac = micros % MICROS_PER_SECOND;
    let mut out = pad_left(dec_string(sec), SECONDS_WIDTH);
    out.append(".");
    let frac_part = pad_left(dec_string(frac), FRACTION_WIDTH);
    out.append(frac_part.as_str());
    proof {
        assert((".")@ =~= seq!['.']);
        assert(out@ =~= wire_of(micros));
    }
    out
}

// ---------------------------------------------------------------------------
// Arithmetic facts about digit strings
// ---------------------------------------------------------------------------

/// Ten to the `k` is positive.
pub proof fn lemma_pow10_pos(k: nat)
    ensures
        pow10(k) >= 1,
    decreases k,
{
    if k > 0 {
        lemma_pow10_pos((k - 1) as nat);
    }
}

/// The value of a concatenation: the left part is shifted by the width of
/// the right part.
pub proof fn lemma_digits_val_concat(a: Seq<char>, b: Seq<char>)
    ensures
        digits_val(a + b) == digits_val(a) * pow10(b.len()) + digits_val(b),
    decreases b.len(),
{
    if b.len() == 0 {
        assert(a + b =~= a);
        assert(pow10(b.len()) == 1);
        assert(digits_val(b) == 0);
        assert(digits_val(a) * 1 == digits_val(a));
    } else {
        assert((a + b).drop_last() =~= a + b.drop_last());
        lemma_digits_val_concat(a, b.drop_last());
        let p = pow10((b.len() - 1) as nat);
        let va = digits_val(a);
        let vb = digits_val(b.drop_last());
        let d = digit_val(b.last());
        assert((a + b).len() == a.len() + b.len());
        assert((a + b).last() == b.last());
        assert(digits_val(a + b) == digits_val((a + b).drop_last()) * 10 + d);
        assert(digits_val(a + b.drop_last()) == va * p + vb);
        assert((va * p + vb) * 10 + d == va * (p * 10) + (vb * 10 + d)) by (nonlinear_arith);
        assert(pow10(b.len()) == 10 * p);
        assert(digits_val(b) == vb * 10 + d);
        assert(va * (p * 10) == va * pow10(b.len()));
    }
}

/// A digit string is worth at least any of its prefixes.
pub proof fn lemma_digits_val_prefix(s: Seq<char>, k: int)
    requires
        0 <= k <= s.len(),
    ensures
        digits_val(s) >= digits_val(s.subrange(0, k)),
{
    let pre = s.subrange(0, k);
    let suf = s.subrange(k, s.len() as int);
    assert(s =~= pre + suf);
    lemma_digits_val_concat(pre, suf);
    lemma_pow10_pos(suf.len());
    assert(digits_val(pre) * pow10(suf.len()) >= digits_val(pre) * 1) by (nonlinear_arith)
        requires pow10(suf.len()) >= 1;
}

/// A wire timestamp has only one possible decimal-point position.
pub proof fn lemma_split_unique(s: Seq<char>, i: int, j: int)
    requires
        split_ok(s, i),
        split_ok(s, j),
    ensures
        i == j,
{
    if i != j {
        assert(is_digit(s[i]));
        assert(s[i] == '.');
    }
}

/// A run of zeros is worth zero.
pub proof fn lemma_zeros_val(k: nat)
    ensures
        digits_val(Seq::new(k, |i: int| '0')) == 0,
        all_digits(Seq::new(k, |i: int| '0')),
    decreases k,
{
    if k > 0 {
        lemma_zeros_val((k - 1) as nat);
        assert(Seq::new(k, |i: int| '0').drop_last() =~= Seq::new((k - 1) as nat, |i: int| '0'));
    }
}

/// Zero-padding keeps the value and the digits, and reaches the width.
pub proof fn lemma_zero_pad(s: Seq<char>, w: nat)
    ensures
        digits_val(zero_pad(s, w)) == digits_val(s),
        all_digits(s) ==> all_digits(zero_pad(s, w)),
        zero_pad(s, w).len() == if s.len() >= w { s.len() } else { w },
{
    if s.len() < w {
        let zeros = Seq::new((w - s.len()) as nat, |i: int| '0');
        lemma_zeros_val((w - s.len()) as nat);
        assert(zero_pad(s, w) =~= zeros + s);
        lemma_digits_val_concat(zeros, s);
        if all_digits(s) {
            assert forall|i: int| 0 <= i < (zeros + s).len() implies is_digit((zeros + s)[i]) by {
                if i < zeros.len() {
                    assert((zeros + s)[i] == zeros[i]);
                } else {
                    assert((zeros + s)[i] == s[i - zeros.len()]);
                }
            }
        }
    }
}

/// The character of a digit value is a digit and is worth that value.
pub proof fn lemma_digit_char_props(d: nat)
    requires
        d < 10,
    ensures
        is_digit(digit_char(d)),
        digit_val(digit_char(d)) == d,
{
    if d == 0 {
        assert(digit_char(d) == '0');
    } else if d == 1 {
        assert(digit_char(d) == '1');
    } else if d == 2 {
        assert(digit_char(d) == '2');
    } else if d == 3 {
        assert(digit_char(d) == '3');
    } else if d == 4 {
        assert(digit_char(d) == '4');
    } else if d == 5 {
        assert(digit_char(d) == '5');
    } else if d == 6 {
        assert(digit_char(d) == '6');
    } else if d == 7 {
        assert(digit_char(d) == '7');
    } else if d == 8 {
        assert(digit_char(d) == '8');
    } else {
        assert(digit_char(d) == '9');
    }
}

/// The shortest rendering consists of digits and is worth what it renders.
pub proof fn lemma_dec_str_digits(n: nat)
    ensures
        all_digits(dec_str(n)),
        digits_val(dec_str(n)) == n,
        dec_str(n).len() >= 1,
    decreases n,
{
    if n < 10 {
        lemma_digit_char_props(n);
        let t = dec_str(n);
        assert(t == seq![digit_char(n)]);
        assert(t.len() == 1);
        assert(t.last() == digit_char(n));
        assert(t.drop_last() =~= Seq::<char>::empty());
        assert(digits_val(t.drop_last()) == 0);
        assert(digits_val(t) == 0 * 10 + digit_val(digit_char(n)));
        assert forall|i: int| 0 <= i < t.len() implies is_digit(t[i]) by {
            assert(t[i] == digit_char(n));
        }
    } else {
        lemma_dec_str_digits(n / 10);
        lemma_digit_char_props(n % 10);
        let t = dec_str(n / 10).push(digit_char(n % 10));
        assert(t.drop_last() =~= dec_str(n / 10));
        assert(digits_val(t) == (n / 10) * 10 + n % 10);
        assert(n == 10 * (n / 10) + n % 10) by {
            vstd::arithmetic::div_mod::lemma_fundamental_div_mod(n as int, 10);
        }
        assert forall|i: int| 0 <= i < t.len() implies is_digit(t[i]) by {
            if i < t.len() - 1 {
                assert(t[i] == dec_str(n / 10)[i]);
            } else {
                assert(t[i] == digit_char(n % 10));
            }
        }
    }
}

/// A value below ten to the `k` renders in at most `k` digits.
pub proof fn lemma_dec_str_len(n: nat, k: nat)
    requires
        k >= 1,
        n < pow10(k),
    ensures
        dec_str(n).len() <= k,
    decreases n,
{
    if n >= 10 {
        let p = pow10((k - 1) as nat);
        if k == 1 {
            assert(pow10(k) == 10);
            assert(false);
        }
        if n / 10 >= p {
            assert(n == 10 * (n / 10) + n % 10) by {
                vstd::arithmetic::div_mod::lemma_fundamental_div_mod(n as int, 10);
            }
            assert(10 * (n / 10) >= 10 * p);
            assert(false);
        }
        lemma_dec_str_len(n / 10, (k - 1) as nat);
    }
}

/// A string of `k` digits is worth less than ten to the `k`.
pub proof fn lemma_digits_val_bound(s: Seq<char>)
    requires
        all_digits(s),
    ensures
        digits_val(s) < pow10(s.len()),
    decreases s.len(),
{
    if s.len() > 0 {
        lemma_digits_val_bound(s.drop_last());
        assert(digit_val(s.last()) <= 9);
    }
}

/// Digit strings of equal width and equal value are equal.
pub proof fn lemma_digit_seq_inj(a: Seq<char>, b: Seq<char>)
    requires
        all_digits(a),
        all_digits(b),
        a.len() == b.len(),
        digits_val(a) == digits_val(b),
    ensures
        a == b,
    decreases a.len(),
{
    if a.len() == 0 {
        assert(a =~= b);
    } else {
        let da = digit_val(a.last());
        let db = digit_val(b.last());
        assert(is_digit(a.last()) && is_digit(b.last()));
        assert(da <= 9 && db <= 9);
        assert(digits_val(a.drop_last()) * 10 + da == digits_val(b.drop_last()) * 10 + db);
        assert(da == db && digits_val(a.drop_last()) == digits_val(b.drop_last()));
        assert(a.last() as u32 == da + 48 && b.last() as u32 == db + 48);
        vstd::utf8::char_u32_cast(a.last(), a.last() as u32);
        vstd::utf8::char_u32_cast(b.last(), b.last() as u32);
        assert(a.last() == b.last());
        lemma_digit_seq_inj(a.drop_last(), b.drop_last());
        assert forall|i: int| 0 <= i < a.len() implies a[i] == b[i] by {
            if i < a.len() - 1 {
                assert(a[i] == a.drop_last()[i]);
                assert(b[i] == b.drop_last()[i]);
            } else {
                assert(a[i] == a.last());
                assert(b[i] == b.last());
            }
        }
        assert(a =~= b);
    }
}

/// Numeric values of the two padding widths.
proof fn lemma_pow10_vals()
    ensures
        pow10(6) == 1_000_000,
        pow10(10) == 10_000_000_000,
{
    reveal_with_fuel(pow10, 11);
}

// ---------------------------------------------------------------------------
// Round-trip laws
// ---------------------------------------------------------------------------

/// Rendering any microsecond count gives a valid wire timestamp that parses
/// back to the same count: `encode(decode(m)) == m`.
pub proof fn lemma_round_trip_from_micros(m: u64)
    ensures
        wire_ok(wire_of(m)),
        wire_value(wire_of(m)) == m as nat,
{
    let sec = (m / MICROS_PER_SECOND) as nat;
    let frac = (m % MICROS_PER_SECOND) as nat;
    let a = zero_pad(dec_str(sec), SECONDS_WIDTH as nat);
    let b = zero_pad(dec_str(frac), FRACTION_WIDTH as nat);
    let s = wire_of(m);
    lemma_dec_str_digits(sec);
    lemma_dec_str_digits(frac);
    lemma_zero_pad(dec_str(sec), SECONDS_WIDTH as nat);
    lemma_zero_pad(dec_str(frac), FRACTION_WIDTH as nat);
    let i = a.len() as int;
    assert(s =~= a + seq!['.'] + b);
    assert(s[i] == '.');
    assert forall|j: int| 0 <= j < s.len() && j != i implies is_digit(s[j]) by {
        if j < i {
            assert(s[j] == a[j]);
        } else {
            assert(s[j] == b[j - i - 1]);
        }
    }
    assert(split_ok(s, i));
    lemma_split_unique(s, dot_index(s), i);
    assert(seconds_part(s) =~= a);
    assert(fraction_part(s) =~= b);
    assert(m == (MICROS_PER_SECOND as int) * (m as int / MICROS_PER_SECOND as int)
        + m as int % MICROS_PER_SECOND as int) by {
        vstd::arithmetic::div_mod::lemma_fundamental_div_mod(
            m as int,
            MICROS_PER_SECOND as int,
        );
    }
}

/// Parsing a wire timestamp in the feed's own shape (ten-digit seconds,
/// six-digit fraction) and rendering the result gives the string back:
/// `decode(encode(t)) == t`.
pub proof fn lemma_round_trip_from_wire(s: Seq<char>)
    requires
        canonical_wire(s),
    ensures
        wire_ok(s),
        wire_of(wire_value(s) as u64) == s,
{
    let sec_s = s.subrange(0, SECONDS_WIDTH as int);
    let frac_s = s.subrange(SECONDS_WIDTH as int + 1, s.len() as int);
    assert(split_ok(s, SECONDS_WIDTH as int));
    lemma_split_unique(s, dot_index(s), SECONDS_WIDTH as int);
    assert(seconds_part(s) == sec_s);
    assert(fraction_part(s) == frac_s);
    assert(all_digits(sec_s));
    assert(all_digits(frac_s));
    lemma_digits_val_bound(sec_s);
    lemma_digits_val_bound(frac_s);
    lemma_pow10_vals();
    let sv = digits_val(sec_s);
    let fv = digits_val(frac_s);
    assert(sv < 10_000_000_000);
    assert(fv < 1_000_000);
    assert(wire_value(s) == sv * 1_000_000 + fv);
    assert(wire_value(s) < 10_000_000_000_000_000);
    let m = wire_value(s) as u64;
    assert(m as int == (sv * 1_000_000 + fv) as int);
    vstd::arithmetic::div_mod::lemma_fundamental_div_mod_converse(
        m as int,
        1_000_000,
        sv as int,
        fv as int,
    );
    assert((m / MICROS_PER_SECOND) as nat == sv);
    assert((m % MICROS_PER_SECOND) as nat == fv);
    lemma_dec_str_digits(sv);
    lemma_dec_str_digits(fv);
    lemma_dec_str_len(sv, SECONDS_WIDTH as nat);
    lemma_dec_str_len(fv, FRACTION_WIDTH as nat);
    lemma_zero_pad(dec_str(sv), SECONDS_WIDTH as nat);
    lemma_zero_pad(dec_str(fv), FRACTION_WIDTH as nat);
    let a = zero_pad(dec_str(sv), SECONDS_WIDTH as nat);
    let b = zero_pad(dec_str(fv), FRACTION_WIDTH as nat);
    lemma_digit_seq_inj(a, sec_s);
    lemma_digit_seq_inj(b, frac_s);
    assert(wire_of(m) =~= s);
}

// ---------------------------------------------------------------------------
// Parsing (encode direction)
// ---------------------------------------------------------------------------

/// Value of the digit run `s[from..to]`, or `None` if it exceeds `u64`.
fn parse_digits(s: &str, from: usize, to: usize) -> (r: Option<u64>)
    requires
        from <= to <= s@.len(),
        forall|j: int| from <= j < to ==> is_digit(s@[j]),
    ensures
        r matches Some(v) ==> v as nat == digits_val(s@.subrange(from as int, to as int)),
        r is None ==> digits_val(s@.subrange(from as int, to as int)) > u64::MAX,
{
    let ghost whole = s@.subrange(from as int, to as int);
    let mut acc: u64 = 0;
    let mut i: usize = from;
    while i < to
        invariant
            from <= i <= to <= s@.len(),
            forall|j: int| from <= j < to ==> is_digit(s@[j]),
            whole == s@.subrange(from as int, to as int),
            acc as nat == digits_val(s@.subrange(from as int, i as int)),
        decreases to - i,
    {
        let c = s.get_char(i);
        let d = (c as u32) - 48;
        let ghost pre = s@.subrange(from as int, i as int);
        let ghost pre1 = s@.subrange(from as int, i as int + 1);
        proof {
            assert(pre1.drop_last() =~= pre);
            assert(pre1.last() == s@[i as int]);
            assert(digits_val(pre1) == acc * 10 + d);
            assert(whole.subrange(0, i as int + 1 - from as int) =~= pre1);
            lemma_digits_val_prefix(whole, i as int + 1 - from as int);
        }
        let acc10 = match acc.checked_mul(10) {
            Some(x) => x,
            None => {
                return None;
            },
        };
        let acc2 = match acc10.checked_add(d as u64) {
            Some(x) => x,
            None => {
                return None;
            },
        };
        acc = acc2;
        i = i + 1;
    }
    proof {
        assert(s@.subrange(from as int, i as int) =~= whole);
    }
    Some(acc)
}

/// Parses a wire timestamp into microseconds since the epoch.
///
/// Succeeds exactly on strings with one decimal point, a non-empty run of
/// digits on each side, and a value that fits the internal representation;
/// everything else is `MalformedTimestamp`.
pub fn slack_ts_to_unix_micros(ts: &str) -> (r: Result<u64, ArchiveError>)
    ensures
        (r is Ok) == wire_ok(ts@),
        r matches Ok(v) ==> v as nat == wire_value(ts@),
        r matches Err(e) ==> e is MalformedTimestamp,
{
    let n = ts.unicode_len();
    let mut i: usize = 0;
    let mut dot: usize = 0;
    let mut seen_dot: bool = false;
    while i < n
        invariant
            i <= n,
            n == ts@.len(),
            seen_dot ==> dot < i && ts@[dot as int] == '.',
            seen_dot ==> forall|j: int| 0 <= j < i && j != dot ==> is_digit(ts@[j]),
            !seen_dot ==> forall|j: int| 0 <= j < i ==> is_digit(ts@[j]),
        decreases n - i,
    {
        let c = ts.get_char(i);
        if c == '.' {
            if seen_dot {
                proof {
                    assert forall|k: int| !split_ok(ts@, k) by {
                        if split_ok(ts@, k) {
                            if k == dot {
                                assert(is_digit(ts@[i as int]));
                            } else {
                                assert(is_digit(ts@[dot as int]));
                            }
                        }
                    }
                }
                return Err(ArchiveError::MalformedTimestamp);
            }
            dot = i;
            seen_dot = true;
        } else {
            let v = c as u32;
            if v < 48 || v > 57 {
                proof {
                    assert forall|k: int| !split_ok(ts@, k) by {
                        if split_ok(ts@, k) {
                            if k == i {
                                assert(ts@[k] == '.');
                            } else {
                                assert(is_digit(ts@[i as int]));
                            }
                        }
                    }
                }
                return Err(ArchiveError::MalformedTimestamp);
            }
        }
        i = i + 1;
    }
    if !seen_dot {
        proof {
            assert forall|k: int| !split_ok(ts@, k) by {
                if split_ok(ts@, k) {
                    assert(is_digit(ts@[k]));
                }
            }
        }
        return Err(ArchiveError::MalformedTimestamp);
    }
    if dot == 0 || dot + 1 >= n {
        proof {
            assert forall|k: int| !split_ok(ts@, k) by {
                if split_ok(ts@, k) && k != dot {
                    assert(is_digit(ts@[dot as int]));
                }
            }
        }
        return Err(ArchiveError::MalformedTimestamp);
    }
    proof {
        assert(split_ok(ts@, dot as int));
        lemma_split_unique(ts@, dot_index(ts@), dot as int);
        assert(seconds_part(ts@) == ts@.subrange(0, dot as int));
        assert(fraction_part(ts@) == ts@.subrange(dot as int + 1, n as int));
    }
    let sec = match parse_digits(ts, 0, dot) {
        Some(v) => v,
        None => {
            return Err(ArchiveError::MalformedTimestamp);
        },
    };
    let frac = match parse_digits(ts, dot + 1, n) {
        Some(v) => v,
        None => {
            return Err(ArchiveError::MalformedTimestamp);
        },
    };
    let shifted = match sec.checked_mul(MICROS_PER_SECOND) {
        Some(x) => x,
        None => {
            return Err(ArchiveError::MalformedTimestamp);
        },
    };
    let total = match shifted.checked_add(frac) {
        Some(x) => x,
        None => {
            return Err(ArchiveError::MalformedTimestamp);
        },
    };
    Ok(total)
}

} // verus!

//! Parsing points from lines of text.
//!
//! A line holds two whitespace-separated decimal tokens, `x` then `y`.
//! A token is an optional sign followed by digits with an optional dot
//! (`"3"`, `"3.5"`, `"-3."`, `"+.5"`), with at most six fraction digits —
//! the precision of the fixed-point coordinates — and a magnitude of at
//! most [`MAX_COORD`] millionths.  Anything after the second token is
//! ignored.

use vstd::prelude::*;

use crate::point::{Point, MAX_COORD};

verus! {

/// Which coordinate of a point a parse error refers to.
#[derive(Clone, Copy, Debug, PartialEq, Eq, Structural)]
pub enum Axis {
    X,
    Y,
}

/// Why a line of text failed to parse as a point.  The first missing or
/// malformed token determines which coordinate is blamed.
#[derive(Clone, Copy, Debug, PartialEq, Eq, Structural)]
pub enum ParseError {
    /// The token for this coordinate was absent.
    MissingCoordinate(Axis),
    /// The token for this coordinate was not a decimal number within range.
    InvalidNumber(Axis),
}

/// ASCII whitespace: space, tab, line feed, vertical tab, form feed,
/// carriage return.
pub open spec fn is_space(b: u8) -> bool {
    b == 32 || (9 <= b && b <= 13)
}

/// ASCII decimal digit.
pub open spec fn is_digit(b: u8) -> bool {
    48 <= b && b <= 57
}

/// Numeric value of an ASCII digit.
pub open spec fn digit_val(b: u8) -> int {
    b - 48
}

pub open spec fn all_digits(t: Seq<u8>) -> bool {
    forall|k: int| 0 <= k < t.len() ==> is_digit(#[trigger] t[k])
}

/// Value of a digit string read in base 10.
pub open spec fn digits_val(t: Seq<u8>) -> int
    decreases t.len(),
{
    if t.len() == 0 {
        0
    } else {
        digits_val(t.drop_last()) * 10 + digit_val(t.last())
    }
}

pub open spec fn pow10(k: nat) -> int
    decreases k,
{
    if k == 0 {
        1
    } else {
        10 * pow10((k - 1) as nat)
    }
}

/// `k` is the position of the decimal dot of token `t`: digits stand
/// before it and after it (either side may be empty).
pub open spec fn dot_split_at(t: Seq<u8>, k: int) -> bool {
    &&& 0 <= k < t.len()
    &&& t[k] == 46
    &&& all_digits(t.subrange(0, k))
    &&& all_digits(t.subrange(k + 1, t.len() as int))
}

pub open spec fn has_dot_split(t: Seq<u8>) -> bool {
    exists|k: int| dot_split_at(t, k)
}

/// Position of the decimal dot; meaningful when `has_dot_split(t)`.
pub open spec fn dot_pos(t: Seq<u8>) -> int {
    choose|k: int| dot_split_at(t, k)
}

/// An unsigned decimal token: digits, optionally with one dot somewhere,
/// and at least one digit overall.
pub open spec fn is_unsigned_token(t: Seq<u8>) -> bool {
    (t.len() >= 1 && all_digits(t)) || (t.len() >= 2 && has_dot_split(t))
}

/// The digits before the dot (all of `t` when there is no dot).
pub open spec fn int_part(t: Seq<u8>) -> Seq<u8> {
    if all_digits(t) {
        t
    } else {
        t.subrange(0, dot_pos(t))
    }
}

/// The digits after the dot (empty when there is no dot).
pub open spec fn frac_part(t: Seq<u8>) -> Seq<u8> {
    if all_digits(t) {
        Seq::empty()
    } else {
        t.subrange(dot_pos(t) + 1, t.len() as int)
    }
}

/// Value of an unsigned token in millionths; meaningful when the token is
/// valid and has at most six fraction digits.
pub open spec fn unsigned_micros(t: Seq<u8>) -> int {
    digits_val(int_part(t)) * 1_000_000 + digits_val(frac_part(t)) * pow10(
        (6 - frac_part(t).len()) as nat,
    )
}

/// The token without its leading sign, if any.
pub open spec fn token_body(t: Seq<u8>) -> Seq<u8> {
    if t.len() > 0 && (t[0] == 43 || t[0] == 45) {
        t.drop_first()
    } else {
        t
    }
}

pub open spec fn token_negative(t: Seq<u8>) -> bool {
    t.len() > 0 && t[0] == 45
}

/// The coordinate value, in millionths, that token `t` denotes: `None`
/// when `t` is not a decimal token, has more than six fraction digits, or
/// exceeds [`MAX_COORD`] in magnitude.
pub open spec fn token_micros(t: Seq<u8>) -> Option<int> {
    let u = token_body(t);
    if is_unsigned_token(u) && frac_part(u).len() <= 6 && unsigned_micros(u) <= MAX_COORD {
        Some(
            if token_negative(t) {
                -unsigned_micros(u)
            } else {
                unsigned_micros(u)
            },
        )
    } else {
        None
    }
}

/// First position at or after `i` holding a non-space byte, or the end.
pub open spec fn skip_spaces(s: Seq<u8>, i: int) -> int
    decreases s.len() - i,
{
    if i < 0 || i >= s.len() {
        s.len() as int
    } else if is_space(s[i]) {
        skip_spaces(s, i + 1)
    } else {
        i
    }
}

/// First position at or after `i` holding a space byte, or the end.
pub open spec fn token_end(s: Seq<u8>, i: int) -> int
    decreases s.len() - i,
{
    if i < 0 || i >= s.len() {
        s.len() as int
    } else if is_space(s[i]) {
        i
    } else {
        token_end(s, i + 1)
    }
}

/// What parsing the line `s` yields: the two coordinate values in
/// millionths, or the error for the first coordinate whose token is
/// absent or malformed.
pub open spec fn spec_parse_point(s: Seq<u8>) -> Result<(int, int), ParseError> {
    let xs = skip_spaces(s, 0);
    if xs >= s.len() {
        Err(ParseError::MissingCoordinate(Axis::X))
    } else {
        let xe = token_end(s, xs);
        match token_micros(s.subrange(xs, xe)) {
            None => Err(ParseError::InvalidNumber(Axis::X)),
            Some(xv) => {
                let ys = skip_spaces(s, xe);
                if ys >= s.len() {
                    Err(ParseError::MissingCoordinate(Axis::Y))
                } else {
                    let ye = token_end(s, ys);
                    match token_micros(s.subrange(ys, ye)) {
                        None => Err(ParseError::InvalidNumber(Axis::Y)),
                        Some(yv) => Ok((xv, yv)),
                    }
                }
            },
        }
    }
}

proof fn lemma_digits_val_nonneg(t: Seq<u8>)
    requires
        all_digits(t),
    ensures
        digits_val(t) >= 0,
    decreases t.len(),
{
    if t.len() > 0 {
        assert(forall|k: int| 0 <= k < t.drop_last().len() ==> is_digit(#[trigger] t.drop_last()[k]));
        lemma_digits_val_nonneg(t.drop_last());
    }
}

proof fn lemma_pow10_pos(k: nat)
    ensures
        pow10(k) >= 1,
    decreases k,
{
    if k > 0 {
        lemma_pow10_pos((k - 1) as nat);
    }
}

proof fn lemma_pow10_mono(a: nat, b: nat)
    requires
        a <= b,
    ensures
        pow10(a) <= pow10(b),
    decreases b,
{
    if a < b {
        lemma_pow10_mono(a, (b - 1) as nat);
        lemma_pow10_pos((b - 1) as nat);
    }
}

proof fn lemma_digits_val_upper(t: Seq<u8>)
    requires
        all_digits(t),
    ensures
        digits_val(t) < pow10(t.len()),
    decreases t.len(),
{
    if t.len() > 0 {
        assert(forall|k: int| 0 <= k < t.drop_last().len() ==> is_digit(#[trigger] t.drop_last()[k]));
        lemma_digits_val_upper(t.drop_last());
    }
}

proof fn lemma_digits_val_lower(t: Seq<u8>)
    requires
        all_digits(t),
        t.len() >= 1,
        t[0] != 48,
    ensures
        digits_val(t) >= pow10((t.len() - 1) as nat),
    decreases t.len(),
{
    if t.len() == 1 {
        assert(digits_val(t) == digits_val(t.drop_last()) * 10 + digit_val(t[0]));
    } else {
        assert(forall|k: int| 0 <= k < t.drop_last().len() ==> is_digit(#[trigger] t.drop_last()[k]));
        lemma_digits_val_lower(t.drop_last());
        lemma_digits_val_nonneg(t);
    }
}

proof fn lemma_digits_val_all_zeros(t: Seq<u8>)
    requires
        forall|k: int| 0 <= k < t.len() ==> #[trigger] t[k] == 48,
    ensures
        digits_val(t) == 0,
    decreases t.len(),
{
    if t.len() > 0 {
        assert(forall|k: int| 0 <= k < t.drop_last().len() ==> #[trigger] t.drop_last()[k] == 48);
        lemma_digits_val_all_zeros(t.drop_last());
    }
}

/// Leading zero digits do not change the value of a digit string.
proof fn lemma_digits_val_skip_zeros(t: Seq<u8>, z: int)
    requires
        all_digits(t),
        0 <= z <= t.len(),
        forall|k: int| 0 <= k < z ==> #[trigger] t[k] == 48,
    ensures
        digits_val(t) == digits_val(t.subrange(z, t.len() as int)),
    decreases t.len(),
{
    let n = t.len() as int;
    if z == n {
        lemma_digits_val_all_zeros(t);
        assert(t.subrange(z, n).len() == 0);
    } else {
        let d = t.drop_last();
        assert(forall|k: int| 0 <= k < d.len() ==> is_digit(#[trigger] d[k]));
        assert(forall|k: int| 0 <= k < z ==> #[trigger] d[k] == 48);
        lemma_digits_val_skip_zeros(d, z);
        assert(d.subrange(z, n - 1) =~= t.subrange(z, n).drop_last());
        assert(t.subrange(z, n).last() == t.last());
    }
}

/// A token has at most one position where a decimal dot can split it.
proof fn lemma_dot_split_unique(t: Seq<u8>, k1: int, k2: int)
    requires
        dot_split_at(t, k1),
        dot_split_at(t, k2),
    ensures
        k1 == k2,
{
    if k1 < k2 {
        assert(t.subrange(k1 + 1, t.len() as int)[k2 - k1 - 1] == t[k2]);
    }
    if k2 < k1 {
        assert(t.subrange(k2 + 1, t.len() as int)[k1 - k2 - 1] == t[k1]);
    }
}

/// A byte that is neither a digit nor a dot, preceded only by digits,
/// rules the token out.
proof fn lemma_invalid_at_nondigit(u: Seq<u8>, p: int)
    requires
        0 <= p < u.len(),
        forall|k: int| 0 <= k < p ==> is_digit(#[trigger] u[k]),
        !is_digit(u[p]),
        u[p] != 46,
    ensures
        !is_unsigned_token(u),
{
    assert(!all_digits(u));
    assert forall|k: int| !dot_split_at(u, k) by {
        if dot_split_at(u, k) {
            if k > p {
                assert(u.subrange(0, k)[p] == u[p]);
            }
        }
    }
}

/// A non-digit after the dot's digit run rules the token out.
proof fn lemma_invalid_after_dot(u: Seq<u8>, d: int, p: int)
    requires
        0 <= d < p < u.len(),
        forall|k: int| 0 <= k < d ==> is_digit(#[trigger] u[k]),
        u[d] == 46,
        forall|k: int| d < k < p ==> is_digit(#[trigger] u[k]),
        !is_digit(u[p]),
    ensures
        !is_unsigned_token(u),
{
    assert(!all_digits(u));
    assert forall|k: int| !dot_split_at(u, k) by {
        if dot_split_at(u, k) {
            if k == d {
                assert(u.subrange(d + 1, u.len() as int)[p - d - 1] == u[p]);
            } else if k > d {
                assert(u.subrange(0, k)[d] == u[d]);
            }
        }
    }
}

proof fn lemma_mul_le(a: int, b: int, ca: int, cb: int)
    requires
        0 <= a <= ca,
        0 <= b <= cb,
    ensures
        0 <= a * b <= ca * cb,
{
    assert(0 <= a * b <= ca * cb) by (nonlinear_arith)
        requires
            0 <= a <= ca,
            0 <= b <= cb,
    ;
}

fn is_space_byte(b: u8) -> (r: bool)
    ensures
        r == is_space(b),
{
    b == 32 || (9 <= b && b <= 13)
}

/// Scans past whitespace, computing [`skip_spaces`].
fn scan_spaces(s: &[u8], from: usize) -> (r: usize)
    requires
        from <= s@.len(),
    ensures
        r == skip_spaces(s@, from as int),
        from <= r <= s@.len(),
        r < s@.len() ==> !is_space(s@[r as int]),
{
    let mut i = from;
    while i < s.len() && is_space_byte(s[i])
        invariant
            from <= i <= s@.len(),
            skip_spaces(s@, from as int) == skip_spaces(s@, i as int),
        decreases s@.len() - i,
    {
        i += 1;
    }
    i
}

/// Scans past non-whitespace, computing [`token_end`].
fn scan_token(s: &[u8], from: usize) -> (r: usize)
    requires
        from <= s@.len(),
    ensures
        r == token_end(s@, from as int),
        from <= r <= s@.len(),
{
    let mut i = from;
    while i < s.len() && !is_space_byte(s[i])
        invariant
            from <= i <= s@.len(),
            token_end(s@, from as int) == token_end(s@, i as int),
        decreases s@.len() - i,
    {
        i += 1;
    }
    i
}

/// Computes a small power of ten.
fn pow10_small(k: usize) -> (r: i64)
    requires
        k <= 6,
    ensures
        r == pow10(k as nat),
        1 <= r <= 1_000_000,
{
    let mut r: i64 = 1;
    let mut i: usize = 0;
    while i < k
        invariant
            i <= k <= 6,
            r == pow10(i as nat),
            1 <= r,
            r <= 1_000_000,
        decreases k - i,
    {
        proof {
            lemma_pow10_mono(i as nat, 5);
            reveal_with_fuel(pow10, 8);
        }
        r = r * 10;
        i += 1;
    }
    proof {
        lemma_pow10_mono(i as nat, 6);
        reveal_with_fuel(pow10, 8);
    }
    r
}

/// Parses the token `s[start..end]` as a fixed-point coordinate value in
/// millionths, deciding [`token_micros`].
#[verifier::rlimit(60)]
fn parse_token(s: &[u8], start: usize, end: usize) -> (r: Option<i64>)
    requires
        start <= end <= s@.len(),
    ensures
        ({
            let t = s@.subrange(start as int, end as int);
            match r {
                Some(v) => token_micros(t) == Some(v as int) && -MAX_COORD <= v <= MAX_COORD,
                None => token_micros(t) is None,
            }
        }),
{
    let ghost t = s@.subrange(start as int, end as int);
    let mut neg = false;
    let mut su = start;
    if start < end && (s[start] == 43 || s[start] == 45) {
        neg = s[start] == 45;
        su = start + 1;
    }
    let ghost u = token_body(t);
    proof {
        assert(u =~= s@.subrange(su as int, end as int));
        assert(token_negative(t) == neg);
    }
    // Scan the digits before the dot.
    let mut i = su;
    while i < end && 48 <= s[i] && s[i] <= 57
        invariant
            su <= i <= end <= s@.len(),
            forall|k: int| su <= k < i ==> is_digit(#[trigger] s@[k]),
        decreases end - i,
    {
        i += 1;
    }
    let int_end = i;
    // Scan the dot and the digits after it.
    let mut frac_start = int_end;
    let mut frac_end = int_end;
    let mut has_dot = false;
    if i < end && s[i] == 46 {
        has_dot = true;
        i += 1;
        frac_start = i;
        while i < end && 48 <= s[i] && s[i] <= 57
            invariant
                frac_start <= i <= end <= s@.len(),
                forall|k: int| frac_start <= k < i ==> is_digit(#[trigger] s@[k]),
            decreases end - i,
        {
            i += 1;
        }
        frac_end = i;
    }
    if i != end {
        // A byte no token may hold, after whatever digits and dot came
        // before it.
        proof {
            let pu = i - su;
            if has_dot {
                lemma_invalid_after_dot(u, int_end - su, pu);
            } else {
                lemma_invalid_at_nondigit(u, pu);
            }
        }
        return None;
    }
    let int_len = int_end - su;
    let frac_len = frac_end - frac_start;
    if int_len == 0 && frac_len == 0 {
        // No digits at all: the body is empty or a lone dot.
        proof {
            if has_dot {
                assert(u.len() == 1 && u[0] == 46);
                assert(!all_digits(u));
            } else {
                assert(u.len() == 0);
            }
            assert(!is_unsigned_token(u));
        }
        return None;
    }
    proof {
        if has_dot {
            assert(u[int_len as int] == 46);
            assert(u.subrange(0, int_len as int) =~= s@.subrange(su as int, int_end as int));
            assert(u.subrange(int_len as int + 1, u.len() as int) =~= s@.subrange(
                frac_start as int,
                frac_end as int,
            ));
            assert(dot_split_at(u, int_len as int));
            assert(!all_digits(u));
            assert(dot_split_at(u, dot_pos(u)));
            lemma_dot_split_unique(u, dot_pos(u), int_len as int);
            assert(int_part(u) =~= s@.subrange(su as int, int_end as int));
            assert(frac_part(u) =~= s@.subrange(frac_start as int, frac_end as int));
        } else {
            assert(u =~= s@.subrange(su as int, int_end as int));
            assert(all_digits(u));
            assert(int_part(u) == u);
            assert(frac_part(u) =~= s@.subrange(frac_start as int, frac_end as int));
        }
        assert(is_unsigned_token(u));
        assert(int_part(u) =~= s@.subrange(su as int, int_end as int));
        assert(frac_part(u).len() == frac_len);
    }
    if frac_len > 6 {
        return None;
    }
    // Skip leading zeros of the integer part, then bound its length: more
    // than ten significant digits always exceeds MAX_COORD.
    let mut z = su;
    while z < int_end && s[z] == 48
        invariant
            su <= z <= int_end <= s@.len(),
            forall|k: int| su <= k < z ==> #[trigger] s@[k] == 48,
        decreases int_end - z,
    {
        z += 1;
    }
    let ghost ip = int_part(u);
    let ghost sig = s@.subrange(z as int, int_end as int);
    proof {
        assert(sig =~= ip.subrange(z - su, ip.len() as int));
        lemma_digits_val_skip_zeros(ip, z - su);
        lemma_digits_val_nonneg(frac_part(u));
        lemma_pow10_pos((6 - frac_len) as nat);
        lemma_mul_le(
            digits_val(frac_part(u)),
            pow10((6 - frac_len) as nat),
            digits_val(frac_part(u)),
            pow10((6 - frac_len) as nat),
        );
    }
    if int_end - z > 10 {
        proof {
            assert(sig.len() >= 11);
            assert(sig[0] == s@[z as int]);
            lemma_digits_val_lower(sig);
            lemma_pow10_mono(10, (sig.len() - 1) as nat);
            reveal_with_fuel(pow10, 12);
            assert(digits_val(ip) >= 10_000_000_000);
            assert(unsigned_micros(u) > MAX_COORD);
        }
        return None;
    }
    // Accumulate the significant integer digits.
    let mut acc: i64 = 0;
    let mut j = z;
    proof {
        assert(s@.subrange(z as int, z as int).len() == 0);
    }
    while j < int_end
        invariant
            su <= z <= j <= int_end <= end <= s@.len(),
            int_end - z <= 10,
            forall|k: int| su <= k < int_end ==> is_digit(#[trigger] s@[k]),
            acc == digits_val(s@.subrange(z as int, j as int)),
            0 <= acc,
            acc < pow10((j - z) as nat),
        decreases int_end - j,
    {
        proof {
            lemma_pow10_mono((j - z) as nat, 9);
            reveal_with_fuel(pow10, 12);
        }
        let d = (s[j] - 48) as i64;
        acc = acc * 10 + d;
        proof {
            assert(s@.subrange(z as int, j + 1).drop_last() =~= s@.subrange(z as int, j as int));
            assert(s@.subrange(z as int, j + 1).last() == s@[j as int]);
            assert(forall|k: int|
                0 <= k < s@.subrange(z as int, j + 1).len() ==> is_digit(
                    #[trigger] s@.subrange(z as int, j + 1)[k],
                ));
            lemma_digits_val_upper(s@.subrange(z as int, j + 1));
        }
        j += 1;
    }
    proof {
        assert(s@.subrange(z as int, int_end as int) == sig);
        assert(digits_val(ip) == acc);
        lemma_pow10_mono((j - z) as nat, 10);
        reveal_with_fuel(pow10, 12);
        assert(acc < 10_000_000_000);
    }
    // Accumulate the fraction digits.
    let mut facc: i64 = 0;
    let mut f = frac_start;
    proof {
        assert(s@.subrange(frac_start as int, frac_start as int).len() == 0);
    }
    while f < frac_end
        invariant
            frac_start <= f <= frac_end <= end <= s@.len(),
            frac_end - frac_start <= 6,
            forall|k: int| frac_start <= k < frac_end ==> is_digit(#[trigger] s@[k]),
            facc == digits_val(s@.subrange(frac_start as int, f as int)),
            0 <= facc,
            facc < pow10((f - frac_start) as nat),
        decreases frac_end - f,
    {
        proof {
            lemma_pow10_mono((f - frac_start) as nat, 5);
            reveal_with_fuel(pow10, 8);
        }
        let d = (s[f] - 48) as i64;
        facc = facc * 10 + d;
        proof {
            assert(s@.subrange(frac_start as int, f + 1).drop_last() =~= s@.subrange(
                frac_start as int,
                f as int,
            ));
            assert(s@.subrange(frac_start as int, f + 1).last() == s@[f as int]);
            assert(forall|k: int|
                0 <= k < s@.subrange(frac_start as int, f + 1).len() ==> is_digit(
                    #[trigger] s@.subrange(frac_start as int, f + 1)[k],
                ));
            lemma_digits_val_upper(s@.subrange(frac_start as int, f + 1));
        }
        f += 1;
    }
    proof {
        assert(digits_val(frac_part(u)) == facc);
        lemma_pow10_mono((f - frac_start) as nat, 6);
        reveal_with_fuel(pow10, 8);
        assert(facc < 1_000_000);
    }
    let scale = pow10_small(6 - frac_len);
    proof {
        lemma_mul_le(facc as int, scale as int, 1_000_000, 1_000_000);
    }
    let val = acc * 1_000_000 + facc * scale;
    proof {
        assert(val == unsigned_micros(u));
    }
    if val > MAX_COORD {
        return None;
    }
    let result = if neg {
        -val
    } else {
        val
    };
    proof {
        assert(token_micros(t) == Some(result as int));
    }
    Some(result)
}

/// A line's trailing carriage return, left by a CRLF line ending, is
/// dropped.
pub open spec fn strip_cr(l: Seq<u8>) -> Seq<u8> {
    if l.len() > 0 && l.last() == 13 {
        l.drop_last()
    } else {
        l
    }
}

/// The lines of `s` from position `i` on, with `cur` holding the bytes
/// already read of the line in progress.  Lines end at a line feed; a
/// final line without one is kept, so a trailing line feed adds no empty
/// line.
pub open spec fn spec_lines_acc(s: Seq<u8>, i: int, cur: Seq<u8>) -> Seq<Seq<u8>>
    decreases s.len() - i,
{
    if i < 0 || i >= s.len() {
        if cur.len() > 0 {
            seq![cur]
        } else {
            Seq::empty()
        }
    } else if s[i] == 10 {
        seq![strip_cr(cur)] + spec_lines_acc(s, i + 1, Seq::empty())
    } else {
        spec_lines_acc(s, i + 1, cur.push(s[i]))
    }
}

/// The text split into lines, as [`str::lines`] splits it.
pub open spec fn spec_split_lines(s: Seq<u8>) -> Seq<Seq<u8>> {
    spec_lines_acc(s, 0, Seq::empty())
}

/// Splits a text blob into its lines, deciding [`spec_split_lines`].
pub fn split_lines(s: &[u8]) -> (r: Vec<Vec<u8>>)
    ensures
        r.deep_view() == spec_split_lines(s@),
{
    let mut out: Vec<Vec<u8>> = Vec::new();
    let mut cur: Vec<u8> = Vec::new();
    let mut i: usize = 0;
    proof {
        assert(out.deep_view() =~= Seq::<Seq<u8>>::empty());
    }
    while i < s.len()
        invariant
            i <= s@.len(),
            spec_split_lines(s@) == out.deep_view() + spec_lines_acc(s@, i as int, cur@),
        decreases s@.len() - i,
    {
        let ghost prev_out = out.deep_view();
        let ghost prev_cur = cur@;
        if s[i] == 10 {
            let mut line = cur;
            cur = Vec::new();
            if line.len() > 0 && line[line.len() - 1] == 13 {
                line.pop();
            }
            proof {
                assert(line@ == strip_cr(prev_cur));
                assert(line.deep_view() =~= line@);
            }
            out.push(line);
            proof {
                assert(out.deep_view() =~~= prev_out.push(strip_cr(prev_cur)));
                assert(prev_out + (seq![strip_cr(prev_cur)] + spec_lines_acc(
                    s@,
                    i + 1,
                    Seq::empty(),
                )) =~~= out.deep_view() + spec_lines_acc(s@, i + 1, cur@));
            }
        } else {
            cur.push(s[i]);
        }
        i += 1;
    }
    if cur.len() > 0 {
        let ghost prev_out = out.deep_view();
        let ghost prev_cur = cur@;
        proof {
            assert(cur.deep_view() =~= cur@);
        }
        out.push(cur);
        proof {
            assert(out.deep_view() =~~= prev_out.push(prev_cur));
            assert(prev_out + seq![prev_cur] =~~= out.deep_view());
        }
    } else {
        proof {
            assert(out.deep_view() + Seq::<Seq<u8>>::empty() =~~= out.deep_view());
        }
    }
    out
}

/// Parses one line of text — two whitespace-separated decimal tokens —
/// into a point, deciding [`spec_parse_point`].
pub fn parse_point(s: &[u8]) -> (r: Result<Point, ParseError>)
    ensures
        ({
            match spec_parse_point(s@) {
                Ok(v) => r is Ok && r->Ok_0.x == v.0 && r->Ok_0.y == v.1 && r->Ok_0.wf(),
                Err(e) => r is Err && r->Err_0 == e,
            }
        }),
{
    let n = s.len();
    let xs = scan_spaces(s, 0);
    if xs == n {
        return Err(ParseError::MissingCoordinate(Axis::X));
    }
    let xe = scan_token(s, xs);
    let x = match parse_token(s, xs, xe) {
        None => {
            return Err(ParseError::InvalidNumber(Axis::X));
        },
        Some(v) => v,
    };
    let ys = scan_spaces(s, xe);
    if ys == n {
        return Err(ParseError::MissingCoordinate(Axis::Y));
    }
    let ye = scan_token(s, ys);
    let y = match parse_token(s, ys, ye) {
        None => {
            return Err(ParseError::InvalidNumber(Axis::Y));
        },
        Some(v) => v,
    };
    Ok(Point::new(x, y))
}

} // verus!

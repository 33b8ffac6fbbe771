//! Parsing one `KEY;VALUE` line into a record.
//!
//! A line is split at its first `;`; the key must be valid UTF-8 and the
//! value a plain decimal literal, optionally signed, with an optional
//! fractional part.  The value is read as a fixed-point number of tenths;
//! fractional digits beyond the first are truncated.  A line that fails any
//! of these steps, or whose value exceeds [`VALUE_LIMIT`] in magnitude, is
//! malformed and yields no record.

use vstd::prelude::*;
use vstd::utf8::valid_utf8;

verus! {

use crate::stats::VALUE_LIMIT;

/// Largest integer part, in whole units, that keeps a value within
/// `VALUE_LIMIT` tenths: `VALUE_LIMIT == 10 * INT_PART_LIMIT + 9`.
const INT_PART_LIMIT: i64 = 99_999_999_999_999;

/// Index of the first occurrence of `b` in `s`, if any.
pub open spec fn first_pos(s: Seq<u8>, b: u8) -> Option<int>
    decreases s.len(),
{
    if s.len() == 0 {
        None
    } else if s[0] == b {
        Some(0)
    } else {
        match first_pos(s.skip(1), b) {
            None => None,
            Some(i) => Some(i + 1),
        }
    }
}

/// `first_pos` finds the position whose earlier bytes all differ from `b`.
pub proof fn lemma_first_pos_found(s: Seq<u8>, b: u8, i: int)
    requires
        0 <= i < s.len(),
        s[i] == b,
        forall|j: int| 0 <= j < i ==> s[j] != b,
    ensures
        first_pos(s, b) == Some(i),
    decreases i,
{
    if i > 0 {
        lemma_first_pos_found(s.skip(1), b, i - 1);
    }
}

/// `first_pos` finds nothing when no byte equals `b`.
pub proof fn lemma_first_pos_none(s: Seq<u8>, b: u8)
    requires
        forall|j: int| 0 <= j < s.len() ==> s[j] != b,
    ensures
        first_pos(s, b) is None,
    decreases s.len(),
{
    if s.len() > 0 {
        lemma_first_pos_none(s.skip(1), b);
    }
}

/// What `first_pos` returns is the first occurrence.
pub proof fn lemma_first_pos_spec(s: Seq<u8>, b: u8)
    ensures
        match first_pos(s, b) {
            None => forall|j: int| 0 <= j < s.len() ==> s[j] != b,
            Some(i) => 0 <= i < s.len() && s[i] == b && (forall|j: int| 0 <= j < i ==> s[j] != b),
        },
    decreases s.len(),
{
    if s.len() > 0 && s[0] != b {
        lemma_first_pos_spec(s.skip(1), b);
        match first_pos(s.skip(1), b) {
            None => {
                assert forall|j: int| 0 <= j < s.len() implies s[j] != b by {
                    if j >= 1 {
                        assert(s.skip(1)[j - 1] != b);
                    }
                }
            },
            Some(i) => {
                assert(s[i + 1] == s.skip(1)[i]);
                assert forall|j: int| 0 <= j < i + 1 implies s[j] != b by {
                    if j >= 1 {
                        assert(s.skip(1)[j - 1] != b);
                    }
                }
            },
        }
    }
}

/// ASCII decimal digit.
pub open spec fn is_digit(c: u8) -> bool {
    48 <= c <= 57
}

/// Every byte is an ASCII decimal digit.
pub open spec fn all_digits(s: Seq<u8>) -> bool {
    forall|i: int| 0 <= i < s.len() ==> is_digit(s[i])
}

/// Numeric value of a digit string, most significant digit first.
pub open spec fn digits_val(s: Seq<u8>) -> int
    decreases s.len(),
{
    if s.len() == 0 {
        0
    } else {
        10 * digits_val(s.drop_last()) + (s.last() - 48)
    }
}

proof fn lemma_digits_val_nonneg(s: Seq<u8>)
    requires
        all_digits(s),
    ensures
        digits_val(s) >= 0,
    decreases s.len(),
{
    if s.len() > 0 {
        assert(all_digits(s.drop_last()));
        lemma_digits_val_nonneg(s.drop_last());
    }
}

/// A digit string is worth at least any of its prefixes.
proof fn lemma_digits_val_prefix(s: Seq<u8>, i: int)
    requires
        all_digits(s),
        0 <= i <= s.len(),
    ensures
        digits_val(s.take(i)) <= digits_val(s),
    decreases s.len(),
{
    if i == s.len() {
        assert(s.take(i) =~= s);
    } else {
        assert(all_digits(s.drop_last()));
        lemma_digits_val_nonneg(s.drop_last());
        assert(s.take(i) =~= s.drop_last().take(i));
        lemma_digits_val_prefix(s.drop_last(), i);
    }
}

/// Integer and fractional digit fields of an unsigned value body: the split
/// at the first `.`, or the whole body with no fraction.
pub open spec fn int_part(body: Seq<u8>) -> Seq<u8> {
    match first_pos(body, 46) {
        None => body,
        Some(d) => body.take(d),
    }
}

/// See [`int_part`].
pub open spec fn frac_part(body: Seq<u8>) -> Seq<u8> {
    match first_pos(body, 46) {
        None => Seq::<u8>::empty(),
        Some(d) => body.skip(d + 1),
    }
}

/// Magnitude, in tenths, of an unsigned value body; `None` when the body is
/// not a decimal literal or the magnitude exceeds `VALUE_LIMIT`.
pub open spec fn magnitude_of(body: Seq<u8>) -> Option<int> {
    let ip = int_part(body);
    let fp = frac_part(body);
    if all_digits(ip) && all_digits(fp) && ip.len() + fp.len() >= 1 {
        let mag = 10 * digits_val(ip) + (if fp.len() > 0 { (fp[0] - 48) as int } else { 0 });
        if mag <= VALUE_LIMIT as int {
            Some(mag)
        } else {
            None
        }
    } else {
        None
    }
}

/// Value, in tenths, of a value field: an optional sign before the body.
pub open spec fn value_of(s: Seq<u8>) -> Option<int> {
    let body = if s.len() > 0 && (s[0] == 43 || s[0] == 45) { s.skip(1) } else { s };
    let neg = s.len() > 0 && s[0] == 45;
    match magnitude_of(body) {
        None => None,
        Some(m) => Some(if neg { -m } else { m }),
    }
}

/// Meaning of one line: split at the first `;`, decode the key as UTF-8,
/// read the value; `None` when any step fails (the line is malformed).
pub open spec fn parse_line_spec(line: Seq<u8>) -> Option<(Seq<u8>, int)> {
    match first_pos(line, 59) {
        None => None,
        Some(i) => {
            if valid_utf8(line.take(i)) {
                match value_of(line.skip(i + 1)) {
                    None => None,
                    Some(v) => Some((line.take(i), v)),
                }
            } else {
                None
            }
        },
    }
}

/// One parsed observation: a UTF-8 key and a reading in tenths.
pub struct Record {
    pub key: Vec<u8>,
    pub value: i64,
}

/// Relies on `std::str::from_utf8`: it returns `Ok` exactly when the bytes
/// are valid UTF-8, the condition `vstd::utf8::valid_utf8` states.
#[verifier::external_body]
fn utf8_check(b: &[u8]) -> (r: bool)
    ensures
        r == valid_utf8(b@),
{
    std::str::from_utf8(b).is_ok()
}

/// A non-digit, non-dot byte inside the integer field spoils the body.
proof fn lemma_bad_int_byte(body: Seq<u8>, k: int)
    requires
        0 <= k < body.len(),
        forall|j: int| 0 <= j < k ==> is_digit(body[j]) && body[j] != 46,
        !is_digit(body[k]),
        body[k] != 46,
    ensures
        magnitude_of(body) is None,
{
    lemma_first_pos_spec(body, 46);
    match first_pos(body, 46) {
        None => {
            assert(int_part(body)[k] == body[k]);
        },
        Some(d) => {
            assert(body[d] == 46);
            assert(d > k);
            assert(int_part(body)[k] == body[k]);
        },
    }
}

/// A non-digit byte after the dot spoils the body.
proof fn lemma_bad_frac_byte(body: Seq<u8>, dot: int, k: int)
    requires
        0 <= dot < body.len(),
        body[dot] == 46,
        forall|j: int| 0 <= j < dot ==> is_digit(body[j]) && body[j] != 46,
        dot < k < body.len(),
        !is_digit(body[k]),
    ensures
        magnitude_of(body) is None,
{
    lemma_first_pos_found(body, 46, dot);
    assert(frac_part(body)[k - dot - 1] == body[k]);
}

/// A too-large scanned digit prefix already spoils the body: whatever
/// follows, the magnitude is over the limit or the grammar is broken.
proof fn lemma_mag_too_big(body: Seq<u8>, k: int)
    requires
        0 < k <= body.len(),
        forall|j: int| 0 <= j < k ==> is_digit(body[j]) && body[j] != 46,
        digits_val(body.take(k)) > INT_PART_LIMIT as int,
    ensures
        magnitude_of(body) is None,
{
    lemma_first_pos_spec(body, 46);
    let ip = int_part(body);
    let fp = frac_part(body);
    match first_pos(body, 46) {
        None => {
            assert(ip == body);
        },
        Some(d) => {
            assert(d >= k);
            assert(ip =~= body.take(d));
        },
    }
    assert(k <= ip.len());
    assert(ip.take(k) =~= body.take(k));
    if all_digits(ip) && all_digits(fp) && ip.len() + fp.len() >= 1 {
        lemma_digits_val_prefix(ip, k);
        assert(digits_val(ip) >= digits_val(body.take(k)));
        assert(10 * digits_val(ip) > VALUE_LIMIT as int);
    }
}

/// Parse an unsigned value body into its magnitude in tenths.
fn parse_magnitude(body: &[u8]) -> (r: Option<i64>)
    ensures
        match r {
            None => magnitude_of(body@) is None,
            Some(m) => magnitude_of(body@) == Some(m as int) && 0 <= m <= VALUE_LIMIT,
        },
{
    let n = body.len();
    let mut i: usize = 0;
    let mut acc: i64 = 0;
    while i < n && body[i] != 46u8
        invariant
            n == body@.len(),
            0 <= i <= n,
            forall|j: int| 0 <= j < i ==> is_digit(body@[j]) && body@[j] != 46,
            0 <= acc <= INT_PART_LIMIT,
            acc == digits_val(body@.take(i as int)),
        decreases n - i,
    {
        let c = body[i];
        if c < 48u8 || c > 57u8 {
            proof {
                lemma_bad_int_byte(body@, i as int);
            }
            return None;
        }
        let na = acc * 10 + ((c - 48u8) as i64);
        proof {
            assert(body@.take(i + 1).drop_last() =~= body@.take(i as int));
            assert(body@.take(i + 1).last() == c);
        }
        if na > INT_PART_LIMIT {
            proof {
                lemma_mag_too_big(body@, i + 1);
            }
            return None;
        }
        acc = na;
        i = i + 1;
    }
    // `i` is the position of the first `.`, or the end of the body.
    let ghost ip = int_part(body@);
    let ghost fp = frac_part(body@);
    if i == n {
        proof {
            lemma_first_pos_none(body@, 46);
            assert(ip =~= body@.take(n as int));
            assert(fp.len() == 0);
        }
        if n == 0 {
            return None;
        }
        proof {
            assert(acc * 10 <= VALUE_LIMIT as int);
        }
        return Some(acc * 10);
    }
    proof {
        lemma_first_pos_found(body@, 46, i as int);
        assert(ip =~= body@.take(i as int));
        assert(fp =~= body@.skip(i + 1));
    }
    let dot = i;
    let mut j: usize = dot + 1;
    if j == n {
        // a trailing dot: the fraction is empty
        if dot == 0 {
            // no digits at all
            return None;
        }
        proof {
            assert(fp.len() == 0);
            assert(acc * 10 <= VALUE_LIMIT as int);
        }
        return Some(acc * 10);
    }
    // at least one fractional digit byte
    let c = body[j];
    if c < 48u8 || c > 57u8 {
        proof {
            lemma_bad_frac_byte(body@, dot as int, j as int);
        }
        return None;
    }
    let mag = acc * 10 + ((c - 48u8) as i64);
    j = j + 1;
    while j < n
        invariant
            n == body@.len(),
            dot < n,
            body@[dot as int] == 46,
            forall|k: int| 0 <= k < dot ==> is_digit(body@[k]) && body@[k] != 46,
            dot + 1 <= j <= n,
            forall|k: int| dot + 1 <= k < j ==> is_digit(body@[k]),
        decreases n - j,
    {
        let c2 = body[j];
        if c2 < 48u8 || c2 > 57u8 {
            proof {
                lemma_bad_frac_byte(body@, dot as int, j as int);
            }
            return None;
        }
        j = j + 1;
    }
    proof {
        assert(forall|k: int| 0 <= k < fp.len() ==> fp[k] == body@[dot + 1 + k]);
        assert(all_digits(fp));
        assert(fp[0] == body@[dot + 1]);
        assert(mag as int == 10 * digits_val(ip) + (fp[0] - 48));
        assert(mag <= VALUE_LIMIT);
    }
    Some(mag)
}

/// Parse a value field: an optional `+` or `-` sign, then the body.
pub fn parse_value(s: &[u8]) -> (r: Option<i64>)
    ensures
        match r {
            None => value_of(s@) is None,
            Some(v) => value_of(s@) == Some(v as int) && -VALUE_LIMIT <= v <= VALUE_LIMIT,
        },
{
    let signed = s.len() > 0 && (s[0] == 43u8 || s[0] == 45u8);
    let neg = s.len() > 0 && s[0] == 45u8;
    let start: usize = if signed { 1 } else { 0 };
    let body = vstd::slice::slice_subrange(s, start, s.len());
    proof {
        assert(body@ =~= (if signed { s@.skip(1) } else { s@ }));
    }
    match parse_magnitude(body) {
        None => None,
        Some(m) => {
            if neg {
                Some(-m)
            } else {
                Some(m)
            }
        },
    }
}

/// Parse one line into a record, or `None` when the line is malformed: no
/// `;`, a key that is not UTF-8, or a value that is not a bounded decimal
/// literal.  Malformed lines are dropped by the aggregator, by design.
pub fn parse_line(line: &[u8]) -> (r: Option<Record>)
    ensures
        match r {
            None => parse_line_spec(line@) is None,
            Some(rec) => {
                &&& parse_line_spec(line@) == Some((rec.key@, rec.value as int))
                &&& valid_utf8(rec.key@)
                &&& -VALUE_LIMIT <= rec.value <= VALUE_LIMIT
            },
        },
{
    let n = line.len();
    let mut i: usize = 0;
    while i < n && line[i] != 59u8
        invariant
            n == line@.len(),
            0 <= i <= n,
            forall|j: int| 0 <= j < i ==> line@[j] != 59,
        decreases n - i,
    {
        i = i + 1;
    }
    if i == n {
        proof {
            lemma_first_pos_none(line@, 59);
        }
        return None;
    }
    proof {
        lemma_first_pos_found(line@, 59, i as int);
    }
    let key_slice = vstd::slice::slice_subrange(line, 0, i);
    proof {
        assert(key_slice@ =~= line@.take(i as int));
    }
    if !utf8_check(key_slice) {
        return None;
    }
    let val_slice = vstd::slice::slice_subrange(line, i + 1, n);
    proof {
        assert(val_slice@ =~= line@.skip(i + 1));
    }
    match parse_value(val_slice) {
        None => None,
        Some(v) => {
            let key = vstd::slice::slice_to_vec(key_slice);
            Some(Record { key, value: v })
        },
    }
}

} // verus!

//! The wire protocol: one request per line, `<task-kind>:<seed>`.
//!
//! A line is trimmed of surrounding whitespace and split on `:`.  The first
//! field must parse as the 8-bit task-kind identifier and the last field as
//! the 64-bit seed; middle fields, if any, are ignored.  A line with no
//! delimiter, or whose kind or seed field is not an integer of the required
//! width, is no request at all — the server drops it silently.
//!
//! `request_of_line` is the one meaning of a line; `parse_request` computes
//! it.

use vstd::prelude::*;

verus! {

/// A parsed request line: a task-kind identifier and a seed.
#[derive(Clone, Copy, Debug, PartialEq, Eq, Structural)]
pub struct Request {
    pub kind: u8,
    pub seed: u64,
}

/// The bytes counted as surrounding whitespace: the ASCII whitespace set.
pub open spec fn is_space(b: u8) -> bool {
    b == 9 || b == 10 || b == 11 || b == 12 || b == 13 || b == 32
}

/// An ASCII decimal digit.
pub open spec fn is_digit(b: u8) -> bool {
    48 <= b <= 57
}

/// A line with its leading whitespace removed.
pub open spec fn trim_front(s: Seq<u8>) -> Seq<u8>
    decreases s.len(),
{
    if s.len() > 0 && is_space(s[0]) {
        trim_front(s.drop_first())
    } else {
        s
    }
}

/// A line with its trailing whitespace removed.
pub open spec fn trim_back(s: Seq<u8>) -> Seq<u8>
    decreases s.len(),
{
    if s.len() > 0 && is_space(s.last()) {
        trim_back(s.drop_last())
    } else {
        s
    }
}

/// A line with its surrounding whitespace removed.
pub open spec fn trim_spec(s: Seq<u8>) -> Seq<u8> {
    trim_back(trim_front(s))
}

/// Whether the line holds the `:` delimiter at all.
pub open spec fn has_colon(s: Seq<u8>) -> bool {
    exists|i: int| 0 <= i < s.len() && s[i] == 58
}

/// The index of the first `:`, or the length if there is none.
pub open spec fn first_colon(s: Seq<u8>) -> int
    decreases s.len(),
{
    if s.len() == 0 {
        0
    } else if s[0] == 58 {
        0
    } else {
        1 + first_colon(s.drop_first())
    }
}

/// The index of the last `:`, or `-1` if there is none.
pub open spec fn last_colon(s: Seq<u8>) -> int
    decreases s.len(),
{
    if s.len() == 0 {
        -1
    } else if s.last() == 58 {
        s.len() - 1
    } else {
        last_colon(s.drop_last())
    }
}

/// A numeric field with an optional leading `+` sign removed, as the integer
/// parser accepts one.
pub open spec fn digit_body(s: Seq<u8>) -> Seq<u8> {
    if s.len() > 0 && s[0] == 43 {
        s.drop_first()
    } else {
        s
    }
}

/// Whether every byte of the field is a decimal digit.
pub open spec fn all_digits(s: Seq<u8>) -> bool {
    forall|i: int| 0 <= i < s.len() ==> is_digit(s[i])
}

/// The value of a string of decimal digits, most significant first.
pub open spec fn digits_val(s: Seq<u8>) -> int
    decreases s.len(),
{
    if s.len() == 0 {
        0
    } else {
        digits_val(s.drop_last()) * 10 + (s.last() - 48)
    }
}

/// What the field parses to as a 64-bit unsigned integer: after an optional
/// `+` sign, one or more decimal digits whose value fits.
pub open spec fn parse_u64_spec(s: Seq<u8>) -> Option<u64> {
    let d = digit_body(s);
    if d.len() > 0 && all_digits(d) && digits_val(d) <= u64::MAX {
        Some(digits_val(d) as u64)
    } else {
        None
    }
}

/// What the field parses to as an 8-bit unsigned integer.
pub open spec fn parse_u8_spec(s: Seq<u8>) -> Option<u8> {
    let d = digit_body(s);
    if d.len() > 0 && all_digits(d) && digits_val(d) <= u8::MAX {
        Some(digits_val(d) as u8)
    } else {
        None
    }
}

/// The request a line carries, if any: after trimming, the line must hold a
/// `:`, its first field must parse as the kind and its last field as the
/// seed.
pub open spec fn request_of_line(line: Seq<u8>) -> Option<Request> {
    let t = trim_spec(line);
    if has_colon(t) {
        let kind_field = t.subrange(0, first_colon(t));
        let seed_field = t.subrange(last_colon(t) + 1, t.len() as int);
        match (parse_u8_spec(kind_field), parse_u64_spec(seed_field)) {
            (Some(kind), Some(seed)) => Some(Request { kind, seed }),
            _ => None,
        }
    } else {
        None
    }
}

proof fn lemma_trim_front_is_subrange(s: Seq<u8>, a: int)
    requires
        0 <= a <= s.len(),
        forall|j: int| 0 <= j < a ==> is_space(s[j]),
        a == s.len() || !is_space(s[a]),
    ensures
        trim_front(s) == s.subrange(a, s.len() as int),
    decreases a,
{
    if a == 0 {
        assert(s.subrange(0, s.len() as int) =~= s);
    } else {
        lemma_trim_front_is_subrange(s.drop_first(), a - 1);
        assert(s.drop_first().subrange(a - 1, s.drop_first().len() as int)
            =~= s.subrange(a, s.len() as int));
    }
}

proof fn lemma_trim_back_is_subrange(s: Seq<u8>, b: int)
    requires
        0 <= b <= s.len(),
        forall|j: int| b <= j < s.len() ==> is_space(s[j]),
        b == 0 || !is_space(s[b - 1]),
    ensures
        trim_back(s) == s.subrange(0, b),
    decreases s.len() - b,
{
    if b == s.len() {
        assert(s.subrange(0, b) =~= s);
    } else {
        lemma_trim_back_is_subrange(s.drop_last(), b);
        assert(s.drop_last().subrange(0, b) =~= s.subrange(0, b));
    }
}

proof fn lemma_first_colon_character(s: Seq<u8>)
    ensures
        0 <= first_colon(s) <= s.len(),
        first_colon(s) < s.len() ==> s[first_colon(s)] == 58,
        forall|j: int| 0 <= j < first_colon(s) ==> s[j] != 58,
        has_colon(s) ==> first_colon(s) < s.len(),
    decreases s.len(),
{
    if s.len() == 0 || s[0] == 58 {
    } else {
        lemma_first_colon_character(s.drop_first());
        assert forall|j: int| 0 <= j < first_colon(s) implies s[j] != 58 by {
            if j > 0 {
                assert(s.drop_first()[j - 1] != 58);
            }
        }
        if has_colon(s) {
            let i = choose|i: int| 0 <= i < s.len() && s[i] == 58;
            assert(s.drop_first()[i - 1] == 58);
            assert(has_colon(s.drop_first()));
        }
    }
}

proof fn lemma_last_colon_character(s: Seq<u8>)
    ensures
        -1 <= last_colon(s) < s.len(),
        last_colon(s) >= 0 ==> s[last_colon(s)] == 58,
        forall|j: int| last_colon(s) < j < s.len() ==> s[j] != 58,
        has_colon(s) ==> last_colon(s) >= 0,
    decreases s.len(),
{
    if s.len() == 0 || s.last() == 58 {
    } else {
        lemma_last_colon_character(s.drop_last());
        assert forall|j: int| last_colon(s) < j < s.len() implies s[j] != 58 by {
            if j < s.len() - 1 {
                assert(s.drop_last()[j] != 58);
            }
        }
        if has_colon(s) {
            let i = choose|i: int| 0 <= i < s.len() && s[i] == 58;
            assert(s.drop_last()[i] == 58);
            assert(has_colon(s.drop_last()));
        }
    }
}

proof fn lemma_digits_val_nonneg(s: Seq<u8>)
    requires
        all_digits(s),
    ensures
        digits_val(s) >= 0,
    decreases s.len(),
{
    if s.len() > 0 {
        assert(all_digits(s.drop_last())) by {
            assert forall|i: int| 0 <= i < s.drop_last().len() implies is_digit(s.drop_last()[i]) by {
                assert(s.drop_last()[i] == s[i]);
            }
        }
        lemma_digits_val_nonneg(s.drop_last());
    }
}

proof fn lemma_digits_val_prefix(s: Seq<u8>, n: int)
    requires
        all_digits(s),
        0 <= n <= s.len(),
    ensures
        digits_val(s.subrange(0, n)) <= digits_val(s),
    decreases s.len(),
{
    if n == s.len() {
        assert(s.subrange(0, n) =~= s);
    } else {
        let head = s.drop_last();
        assert(all_digits(head)) by {
            assert forall|i: int| 0 <= i < head.len() implies is_digit(head[i]) by {
                assert(head[i] == s[i]);
            }
        }
        lemma_digits_val_prefix(head, n);
        lemma_digits_val_nonneg(head);
        assert(s.subrange(0, n) =~= head.subrange(0, n));
        assert(digits_val(s) == digits_val(head) * 10 + (s.last() - 48));
        assert(digits_val(head) * 10 >= digits_val(head));
    }
}

fn byte_is_space(b: u8) -> (r: bool)
    ensures
        r == is_space(b),
{
    b == 9 || b == 10 || b == 11 || b == 12 || b == 13 || b == 32
}

fn find_trim_bounds(s: &[u8]) -> (r: (usize, usize))
    ensures
        r.0 <= r.1 <= s@.len(),
        trim_spec(s@) == s@.subrange(r.0 as int, r.1 as int),
{
    let len: usize = s.len();
    let mut lo: usize = 0;
    while lo < len && byte_is_space(s[lo])
        invariant
            0 <= lo <= len,
            len == s@.len(),
            forall|j: int| 0 <= j < lo ==> is_space(s@[j]),
        decreases len - lo,
    {
        lo = lo + 1;
    }
    let mut hi: usize = len;
    while hi > lo && byte_is_space(s[hi - 1])
        invariant
            lo <= hi <= len,
            len == s@.len(),
            forall|j: int| hi <= j < len ==> is_space(s@[j]),
        decreases hi,
    {
        hi = hi - 1;
    }
    proof {
        lemma_trim_front_is_subrange(s@, lo as int);
        let t1 = s@.subrange(lo as int, len as int);
        lemma_trim_back_is_subrange(t1, hi - lo);
        assert(t1.subrange(0, hi - lo) =~= s@.subrange(lo as int, hi as int));
    }
    (lo, hi)
}

fn find_first_colon(s: &[u8], lo: usize, hi: usize) -> (r: Option<usize>)
    requires
        lo <= hi <= s@.len(),
    ensures
        match r {
            Some(i) => lo <= i < hi && s@[i as int] == 58
                && forall|j: int| lo <= j < i ==> s@[j] != 58,
            None => forall|j: int| lo <= j < hi ==> s@[j] != 58,
        },
{
    let mut i: usize = lo;
    while i < hi
        invariant
            lo <= i <= hi <= s@.len(),
            forall|j: int| lo <= j < i ==> s@[j] != 58,
        decreases hi - i,
    {
        if s[i] == 58 {
            return Some(i);
        }
        i = i + 1;
    }
    None
}

fn find_last_colon(s: &[u8], lo: usize, hi: usize) -> (r: Option<usize>)
    requires
        lo <= hi <= s@.len(),
    ensures
        match r {
            Some(i) => lo <= i < hi && s@[i as int] == 58
                && forall|j: int| i < j < hi ==> s@[j] != 58,
            None => forall|j: int| lo <= j < hi ==> s@[j] != 58,
        },
{
    let mut i: usize = hi;
    while i > lo
        invariant
            lo <= i <= hi <= s@.len(),
            forall|j: int| i <= j < hi ==> s@[j] != 58,
        decreases i,
    {
        i = i - 1;
        if s[i] == 58 {
            return Some(i);
        }
    }
    None
}

fn parse_u64_range(s: &[u8], start: usize, end: usize) -> (r: Option<u64>)
    requires
        start <= end <= s@.len(),
    ensures
        r == parse_u64_spec(s@.subrange(start as int, end as int)),
{
    let ghost u = s@.subrange(start as int, end as int);
    let ghost d = digit_body(u);
    let ds: usize = if start < end && s[start] == 43 {
        start + 1
    } else {
        start
    };
    proof {
        assert(d =~= s@.subrange(ds as int, end as int));
    }
    if ds == end {
        return None;
    }
    let mut acc: u64 = 0;
    let mut i: usize = ds;
    while i < end
        invariant
            start <= ds <= i <= end <= s@.len(),
            d == s@.subrange(ds as int, end as int),
            d == digit_body(s@.subrange(start as int, end as int)),
            d.len() > 0,
            forall|j: int| ds <= j < i ==> is_digit(s@[j]),
            acc as int == digits_val(s@.subrange(ds as int, i as int)),
        decreases end - i,
    {
        let b = s[i];
        if b < 48 || b > 57 {
            proof {
                assert(d[i - ds] == s@[i as int]);
                assert(!all_digits(d));
            }
            return None;
        }
        let dv: u64 = (b - 48) as u64;
        proof {
            assert(s@.subrange(ds as int, i + 1).drop_last() =~= s@.subrange(
                ds as int,
                i as int,
            ));
            assert(s@.subrange(ds as int, i + 1).last() == s@[i as int]);
            assert(digits_val(s@.subrange(ds as int, i + 1)) == acc * 10 + dv);
        }
        if acc > (u64::MAX - dv) / 10 {
            proof {
                let rest: int = u64::MAX - dv;
                assert(rest >= 0);
                assert(rest == 10 * (rest / 10) + rest % 10) by (nonlinear_arith);
                assert(0 <= rest % 10 < 10) by (nonlinear_arith);
                assert(acc as int >= rest / 10 + 1);
                assert(acc * 10 >= 10 * (rest / 10) + 10);
                assert(acc * 10 + dv > u64::MAX);
                if all_digits(d) {
                    lemma_digits_val_prefix(d, i + 1 - ds);
                    assert(d.subrange(0, i + 1 - ds) =~= s@.subrange(ds as int, i + 1));
                    assert(digits_val(d) > u64::MAX);
                }
            }
            return None;
        }
        acc = acc * 10 + dv;
        i = i + 1;
    }
    proof {
        assert(d =~= s@.subrange(ds as int, i as int));
        assert(all_digits(d)) by {
            assert forall|j: int| 0 <= j < d.len() implies is_digit(d[j]) by {
                assert(d[j] == s@[ds + j]);
            }
        }
    }
    Some(acc)
}

fn parse_u8_range(s: &[u8], start: usize, end: usize) -> (r: Option<u8>)
    requires
        start <= end <= s@.len(),
    ensures
        r == parse_u8_spec(s@.subrange(start as int, end as int)),
{
    proof {
        let d = digit_body(s@.subrange(start as int, end as int));
        if all_digits(d) {
            lemma_digits_val_nonneg(d);
        }
    }
    match parse_u64_range(s, start, end) {
        Some(v) => if v <= 255 {
            Some(v as u8)
        } else {
            None
        },
        None => None,
    }
}

/// Parse one line into the request it carries, if any: trim it, require the
/// `:` delimiter, read the first field as the kind and the last as the seed.
pub fn parse_request(line: &[u8]) -> (r: Option<Request>)
    ensures
        r == request_of_line(line@),
{
    let (lo, hi) = find_trim_bounds(line);
    let ghost t = trim_spec(line@);
    let first = match find_first_colon(line, lo, hi) {
        Some(i) => i,
        None => {
            proof {
                assert forall|i: int| 0 <= i < t.len() implies t[i] != 58 by {
                    assert(t[i] == line@[lo + i]);
                }
            }
            return None;
        },
    };
    let last = match find_last_colon(line, lo, hi) {
        Some(i) => i,
        None => {
            proof {
                assert(false);
            }
            return None;
        },
    };
    proof {
        assert(t[first - lo] == 58);
        assert(has_colon(t));
        lemma_first_colon_character(t);
        lemma_last_colon_character(t);
        assert(first_colon(t) == first - lo) by {
            let fc = first_colon(t);
            if fc < first - lo {
                assert(t[fc] == 58);
                assert(line@[lo + fc] == 58);
            } else if fc > first - lo {
                assert(t[first - lo] != 58);
            }
        };
        assert(last_colon(t) == last - lo) by {
            let lc = last_colon(t);
            if lc > last - lo {
                assert(t[lc] == 58);
                assert(line@[lo + lc] == 58);
            } else if lc < last - lo {
                assert(t[last - lo] != 58);
            }
        };
        assert(line@.subrange(lo as int, first as int) =~= t.subrange(0, first_colon(t)));
        assert(line@.subrange(last + 1, hi as int) =~= t.subrange(
            last_colon(t) + 1,
            t.len() as int,
        ));
    }
    let kind = match parse_u8_range(line, lo, first) {
        Some(k) => k,
        None => {
            return None;
        },
    };
    let seed = match parse_u64_range(line, last + 1, hi) {
        Some(v) => v,
        None => {
            return None;
        },
    };
    Some(Request { kind, seed })
}

} // verus!

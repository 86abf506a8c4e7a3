//! Byte-level field extraction: decimal integers, quoted tag values, the
//! time-control predicate, and splitting a file into lines.

use vstd::prelude::*;
use vstd::slice::slice_subrange;
use vstd::slice::slice_to_vec;

verus! {

pub const QUOTE: u8 = 34;
pub const PLUS: u8 = 43;
pub const MINUS: u8 = 45;
pub const NEWLINE: u8 = 10;
pub const CARRIAGE_RETURN: u8 = 13;
pub const DIGIT_ZERO: u8 = 48;
pub const DIGIT_NINE: u8 = 57;
pub const LEFT_BRACKET: u8 = 91;

/// A tag value failed to parse: a rating or time-control field is not a
/// valid integer, a time control lacks its `+` separator, a result token is
/// not recognized, or a tag line carries no quoted value.
#[derive(Clone, Copy, PartialEq, Eq, Structural, Debug)]
pub struct MalformedInput;

/// Index of the first occurrence of `c` in `s`, or `s.len()` if absent.
pub open spec fn first_ix(s: Seq<u8>, c: u8) -> nat
    decreases s.len(),
{
    if s.len() == 0 {
        0
    } else if s[0] == c {
        0
    } else {
        1 + first_ix(s.skip(1), c)
    }
}

pub(crate) proof fn lemma_first_ix(s: Seq<u8>, c: u8)
    ensures
        first_ix(s, c) <= s.len(),
        first_ix(s, c) < s.len() ==> s[first_ix(s, c) as int] == c,
        forall|j: int| 0 <= j < first_ix(s, c) ==> s[j] != c,
    decreases s.len(),
{
    if s.len() == 0 {
    } else if s[0] == c {
    } else {
        lemma_first_ix(s.skip(1), c);
        assert forall|j: int| 0 <= j < first_ix(s, c) implies s[j] != c by {
            if j > 0 {
                assert(s.skip(1)[j - 1] == s[j]);
                assert(s.skip(1)[j - 1] != c);
            }
        }
    }
}

/// Index of the first occurrence of `c` in `s`, or `s.len()` if absent.
pub(crate) fn find_byte(s: &[u8], c: u8) -> (r: usize)
    ensures
        r == first_ix(s@, c),
{
    let n = s.len();
    let mut i: usize = 0;
    while i < n
        invariant
            n == s@.len(),
            i <= n,
            forall|j: int| 0 <= j < i ==> s@[j] != c,
        decreases n - i,
    {
        if s[i] == c {
            proof {
                lemma_first_ix(s@, c);
                if first_ix(s@, c) < i {
                    assert(s@[first_ix(s@, c) as int] == c);
                    assert(false);
                }
            }
            return i;
        }
        i += 1;
    }
    proof {
        lemma_first_ix(s@, c);
        if first_ix(s@, c) < n {
            assert(s@[first_ix(s@, c) as int] == c);
            assert(false);
        }
    }
    i
}

/// `p` is an initial segment of `s`.
pub open spec fn is_prefix(s: Seq<u8>, p: Seq<u8>) -> bool {
    p.len() <= s.len() && s.take(p.len() as int) == p
}

pub(crate) fn has_prefix(s: &[u8], p: &[u8]) -> (r: bool)
    ensures
        r == is_prefix(s@, p@),
{
    let m = p.len();
    if m > s.len() {
        return false;
    }
    let mut i: usize = 0;
    while i < m
        invariant
            m == p@.len(),
            m <= s@.len(),
            i <= m,
            forall|j: int| 0 <= j < i ==> s@[j] == p@[j],
        decreases m - i,
    {
        if s[i] != p[i] {
            proof {
                if is_prefix(s@, p@) {
                    assert(s@.take(m as int)[i as int] == p@[i as int]);
                    assert(false);
                }
            }
            return false;
        }
        i += 1;
    }
    proof {
        assert(s@.take(m as int) =~= p@);
    }
    true
}

pub open spec fn is_digit(b: u8) -> bool {
    DIGIT_ZERO <= b <= DIGIT_NINE
}

pub open spec fn all_digits(s: Seq<u8>) -> bool {
    forall|i: int| 0 <= i < s.len() ==> is_digit(#[trigger] s[i])
}

/// The number written by a sequence of decimal digits, most significant
/// first.
pub open spec fn digits_value(s: Seq<u8>) -> nat
    decreases s.len(),
{
    if s.len() == 0 {
        0
    } else {
        digits_value(s.drop_last()) * 10 + (s.last() - DIGIT_ZERO) as nat
    }
}

/// The value a decimal integer literal denotes, with an optional single
/// leading `+` or `-`: `Some` exactly when the digits are well formed and
/// the value fits in an `i32`.
pub open spec fn parse_i32_spec(s: Seq<u8>) -> Option<i32> {
    let signed = s.len() > 0 && (s[0] == PLUS || s[0] == MINUS);
    let negative = s.len() > 0 && s[0] == MINUS;
    let body = if signed {
        s.skip(1)
    } else {
        s
    };
    if body.len() == 0 || !all_digits(body) {
        None
    } else if negative {
        if digits_value(body) <= 0x8000_0000 {
            Some((-(digits_value(body) as int)) as i32)
        } else {
            None
        }
    } else {
        if digits_value(body) <= 0x7fff_ffff {
            Some(digits_value(body) as i32)
        } else {
            None
        }
    }
}

/// Parses a decimal integer with an optional leading sign.
pub(crate) fn parse_i32(s: &[u8]) -> (r: Option<i32>)
    ensures
        r == parse_i32_spec(s@),
{
    let n = s.len();
    if n == 0 {
        return None;
    }
    let c0 = s[0];
    let negative = c0 == MINUS;
    let start: usize = if c0 == MINUS || c0 == PLUS {
        1
    } else {
        0
    };
    let body = slice_subrange(s, start, n);
    proof {
        if start == 1 {
            assert(s@.skip(1) =~= s@.subrange(1, n as int));
        } else {
            assert(s@.skip(0) =~= s@.subrange(0, n as int));
            assert(s@ =~= s@.subrange(0, n as int));
        }
    }
    let m = body.len();
    if m == 0 {
        return None;
    }
    let mut acc: u64 = 0;
    let mut big = false;
    let mut i: usize = 0;
    while i < m
        invariant
            n == s@.len(),
            0 < n,
            negative == (s@[0] == MINUS),
            body@ == (if s@[0] == PLUS || s@[0] == MINUS {
                s@.skip(1)
            } else {
                s@
            }),
            m == body@.len(),
            0 < m,
            i <= m,
            all_digits(body@.take(i as int)),
            !big ==> acc == digits_value(body@.take(i as int)) && acc <= 0xffff_ffffu64,
            big ==> digits_value(body@.take(i as int)) > 0xffff_ffff,
        decreases m - i,
    {
        let d = body[i];
        if d < DIGIT_ZERO || d > DIGIT_NINE {
            proof {
                assert(!is_digit(body@[i as int]));
                assert(!all_digits(body@));
            }
            return None;
        }
        proof {
            assert(body@.take(i as int + 1).drop_last() =~= body@.take(i as int));
            assert(body@.take(i as int + 1).last() == body@[i as int]);
            assert forall|j: int| 0 <= j < i + 1 implies is_digit(
                #[trigger] body@.take(i as int + 1)[j],
            ) by {
                if j < i {
                    assert(is_digit(body@.take(i as int)[j]));
                }
            }
        }
        if !big {
            acc = acc * 10 + ((d - DIGIT_ZERO) as u64);
            if acc > 0xffff_ffff {
                big = true;
            }
        }
        i += 1;
    }
    proof {
        assert(body@.take(m as int) =~= body@);
    }
    if big {
        return None;
    }
    if negative {
        if acc <= 0x8000_0000u64 {
            Some((-(acc as i64)) as i32)
        } else {
            None
        }
    } else {
        if acc <= 0x7fff_ffffu64 {
            Some(acc as i32)
        } else {
            None
        }
    }
}

/// The value a tag line carries: the bytes between the first double quote
/// and the next one (or the end of the line); `None` when the line has no
/// double quote at all.
pub open spec fn quoted(line: Seq<u8>) -> Option<Seq<u8>> {
    if first_ix(line, QUOTE) >= line.len() {
        None
    } else {
        let rest = line.skip(first_ix(line, QUOTE) as int + 1);
        Some(rest.take(first_ix(rest, QUOTE) as int))
    }
}

/// Extracts the quoted value of a tag line.
pub(crate) fn quoted_value(line: &[u8]) -> (r: Option<&[u8]>)
    ensures
        match r {
            Some(v) => quoted(line@) == Some(v@),
            None => quoted(line@) is None,
        },
{
    let n = line.len();
    proof {
        lemma_first_ix(line@, QUOTE);
    }
    let q1 = find_byte(line, QUOTE);
    if q1 >= n {
        return None;
    }
    let rest = slice_subrange(line, q1 + 1, n);
    proof {
        assert(rest@ =~= line@.skip(q1 as int + 1));
        lemma_first_ix(rest@, QUOTE);
    }
    let q2 = find_byte(rest, QUOTE);
    let v = slice_subrange(rest, 0, q2);
    proof {
        assert(v@ =~= rest@.take(q2 as int));
    }
    Some(v)
}

/// Whether an `initial+increment` time control qualifies: `Some(q)` when the
/// two fields parse, with `q` true exactly when `initial + 40 * increment`
/// is at least 480; `None` when the separator is absent or a field is not a
/// valid integer.
pub open spec fn tc_spec(v: Seq<u8>) -> Option<bool> {
    if first_ix(v, PLUS) >= v.len() {
        None
    } else {
        let f0 = v.take(first_ix(v, PLUS) as int);
        let rest = v.skip(first_ix(v, PLUS) as int + 1);
        let f1 = rest.take(first_ix(rest, PLUS) as int);
        if parse_i32_spec(f0) is Some && parse_i32_spec(f1) is Some {
            Some(parse_i32_spec(f0)->Some_0 + 40 * parse_i32_spec(f1)->Some_0 >= 480)
        } else {
            None
        }
    }
}

/// Decides whether a time-control specification of the form
/// `"<initial>+<increment>"` qualifies for inclusion: the estimated game
/// length `initial + 40 * increment` must be at least 480 time units.
/// Anything but two integer fields around the first `+` is malformed.
pub fn timecontrol_qualifies(tc: &[u8]) -> (r: Result<bool, MalformedInput>)
    ensures
        match r {
            Ok(q) => tc_spec(tc@) == Some(q),
            Err(_) => tc_spec(tc@) is None,
        },
{
    let n = tc.len();
    proof {
        lemma_first_ix(tc@, PLUS);
    }
    let p = find_byte(tc, PLUS);
    if p >= n {
        return Err(MalformedInput);
    }
    let f0 = slice_subrange(tc, 0, p);
    let rest = slice_subrange(tc, p + 1, n);
    proof {
        assert(f0@ =~= tc@.take(p as int));
        assert(rest@ =~= tc@.skip(p as int + 1));
        lemma_first_ix(rest@, PLUS);
    }
    let q = find_byte(rest, PLUS);
    let f1 = slice_subrange(rest, 0, q);
    proof {
        assert(f1@ =~= rest@.take(q as int));
    }
    let initial = parse_i32(f0);
    let increment = parse_i32(f1);
    match (initial, increment) {
        (Some(a), Some(b)) => {
            let estimate: i64 = a as i64 + 40 * (b as i64);
            Ok(estimate >= 480)
        },
        _ => Err(MalformedInput),
    }
}

/// The last byte of a line is dropped when it is a carriage return (a CRLF
/// line ending).
pub open spec fn strip_cr(s: Seq<u8>) -> Seq<u8> {
    if s.len() > 0 && s.last() == CARRIAGE_RETURN {
        s.drop_last()
    } else {
        s
    }
}

/// The lines of a text: segments between newline bytes, each with a
/// trailing carriage return removed; a final segment without a newline is
/// kept as it stands, and a trailing newline adds no empty line.
pub open spec fn split_lines_spec(s: Seq<u8>) -> Seq<Seq<u8>>
    decreases s.len(),
{
    if s.len() == 0 {
        Seq::empty()
    } else if first_ix(s, NEWLINE) >= s.len() {
        seq![s]
    } else {
        seq![strip_cr(s.take(first_ix(s, NEWLINE) as int))] + split_lines_spec(
            s.skip(first_ix(s, NEWLINE) as int + 1),
        )
    }
}

/// A file never has more lines than bytes: every line but an unterminated
/// final one consumes at least its newline byte.
pub proof fn lemma_split_lines_len(s: Seq<u8>)
    ensures
        split_lines_spec(s).len() <= s.len(),
    decreases s.len(),
{
    if s.len() == 0 {
    } else if first_ix(s, NEWLINE) >= s.len() {
    } else {
        lemma_split_lines_len(s.skip(first_ix(s, NEWLINE) as int + 1));
    }
}

/// Byte-for-byte equality of two slices.
pub(crate) fn bytes_eq(a: &[u8], b: &[u8]) -> (r: bool)
    ensures
        r == (a@ == b@),
{
    let n = a.len();
    if n != b.len() {
        return false;
    }
    let mut i: usize = 0;
    while i < n
        invariant
            n == a@.len(),
            n == b@.len(),
            i <= n,
            forall|j: int| 0 <= j < i ==> a@[j] == b@[j],
        decreases n - i,
    {
        if a[i] != b[i] {
            return false;
        }
        i += 1;
    }
    proof {
        assert(a@ =~= b@);
    }
    true
}

/// Splits a file's bytes into lines.
pub(crate) fn split_lines(content: &[u8]) -> (r: Vec<Vec<u8>>)
    ensures
        r@.len() == split_lines_spec(content@).len(),
        forall|i: int| 0 <= i < r@.len() ==> r@[i]@ == split_lines_spec(content@)[i],
{
    let mut r: Vec<Vec<u8>> = Vec::new();
    let n = content.len();
    let mut pos: usize = 0;
    proof {
        assert(content@.skip(0) =~= content@);
    }
    while pos < n
        invariant
            n == content@.len(),
            pos <= n,
            split_lines_spec(content@).len() == r@.len() + split_lines_spec(
                content@.skip(pos as int),
            ).len(),
            forall|i: int| 0 <= i < r@.len() ==> split_lines_spec(content@)[i] == r@[i]@,
            forall|i: int|
                0 <= i < split_lines_spec(content@.skip(pos as int)).len()
                    ==> split_lines_spec(content@)[r@.len() + i] == #[trigger] split_lines_spec(
                    content@.skip(pos as int),
                )[i],
        decreases n - pos,
    {
        let ghost tail = content@.skip(pos as int);
        let ghost done = r@.len() as int;
        let rest = slice_subrange(content, pos, n);
        proof {
            assert(rest@ =~= tail);
            lemma_first_ix(rest@, NEWLINE);
        }
        let k = find_byte(rest, NEWLINE);
        if k >= rest.len() {
            let line = slice_to_vec(rest);
            r.push(line);
            proof {
                assert(split_lines_spec(tail) =~= seq![tail]);
                assert(split_lines_spec(content@.skip(pos as int))[0] == tail);
                assert(split_lines_spec(content@)[done + 0] == split_lines_spec(
                    content@.skip(pos as int),
                )[0]);
                assert(content@.skip(n as int) =~= Seq::<u8>::empty());
            }
            pos = n;
        } else {
            let endk: usize = if k > 0 && rest[k - 1] == CARRIAGE_RETURN {
                k - 1
            } else {
                k
            };
            let line = slice_to_vec(slice_subrange(rest, 0, endk));
            r.push(line);
            proof {
                assert(rest@.subrange(0, endk as int) =~= rest@.take(endk as int));
                if endk < k {
                    assert(rest@.take(k as int).last() == CARRIAGE_RETURN);
                    assert(rest@.take(k as int).drop_last() =~= rest@.take(endk as int));
                } else {
                    if rest@.take(k as int).len() > 0 {
                        assert(rest@.take(k as int).last() == rest@[k as int - 1]);
                    }
                }
                assert(strip_cr(rest@.take(k as int)) == rest@.take(endk as int));
                assert(split_lines_spec(tail) == seq![rest@.take(endk as int)]
                    + split_lines_spec(tail.skip(k as int + 1)));
                assert(content@.skip(pos as int + k as int + 1) =~= tail.skip(k as int + 1));
                assert(split_lines_spec(content@.skip(pos as int))[0] == rest@.take(endk as int));
                assert(split_lines_spec(content@)[done + 0] == split_lines_spec(
                    content@.skip(pos as int),
                )[0]);
                assert forall|i: int|
                    0 <= i < split_lines_spec(tail.skip(k as int + 1)).len()
                        implies split_lines_spec(content@)[done + 1 + i] == #[trigger] split_lines_spec(
                    tail.skip(k as int + 1),
                )[i] by {
                    assert(split_lines_spec(content@.skip(pos as int))[1 + i]
                        == split_lines_spec(tail.skip(k as int + 1))[i]);
                    assert(split_lines_spec(content@)[done + (1 + i)] == split_lines_spec(
                        content@.skip(pos as int),
                    )[1 + i]);
                }
            }
            pos = pos + k + 1;
        }
    }
    proof {
        assert(content@.skip(pos as int) =~= Seq::<u8>::empty());
    }
    r
}

} // verus!

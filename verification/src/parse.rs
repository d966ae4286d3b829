//! The record parser: one raw line either becomes a record or is refused.

use vstd::prelude::*;
use crate::record::{Rec, Userdb};
use crate::text::{find_from, find_ws, skip_ws, find_char_from, find_ws_from, skip_ws_from};

verus! {

/// ASCII decimal digit.
pub open spec fn is_digit_char(c: char) -> bool {
    0x30 <= c as u32 && c as u32 <= 0x39
}

/// Numeric value of a digit character.
pub open spec fn digit_val(c: char) -> int {
    c as u32 - 0x30
}

/// Every character of `s` is a decimal digit.
pub open spec fn all_digits(s: Seq<char>) -> bool {
    forall|i: int| 0 <= i < s.len() ==> is_digit_char(s[i])
}

/// Value of a digit string read in base ten.
pub open spec fn digits_val(s: Seq<char>) -> int
    decreases s.len(),
{
    if s.len() == 0 {
        0
    } else {
        digits_val(s.drop_last()) * 10 + digit_val(s.last())
    }
}

/// The digit part of an integer literal: everything behind an optional
/// leading sign.
pub open spec fn int_digits(s: Seq<char>) -> Seq<char> {
    if s.len() > 0 && (s[0] == '+' || s[0] == '-') {
        s.drop_first()
    } else {
        s
    }
}

/// Whether an integer literal carries a minus sign.
pub open spec fn int_negative(s: Seq<char>) -> bool {
    s.len() > 0 && s[0] == '-'
}

/// What `str::parse::<i32>` accepts: an optional sign, then one or more
/// digits, with the value in `i32` range.
pub open spec fn spec_parse_i32(s: Seq<char>) -> Option<i32> {
    let ds = int_digits(s);
    if ds.len() == 0 || !all_digits(ds) {
        None
    } else {
        let v = if int_negative(s) {
            -digits_val(ds)
        } else {
            digits_val(ds)
        };
        if i32::MIN <= v <= i32::MAX {
            Some(v as i32)
        } else {
            None
        }
    }
}

/// A digit string's value is never negative.
pub proof fn lemma_digits_val_nonneg(s: Seq<char>)
    requires
        all_digits(s),
    ensures
        digits_val(s) >= 0,
    decreases s.len(),
{
    if s.len() > 0 {
        assert(all_digits(s.drop_last())) by {
            assert(forall|i: int| 0 <= i < s.len() - 1 ==> s.drop_last()[i] == s[i]);
        }
        lemma_digits_val_nonneg(s.drop_last());
    }
}

/// Extending a digit string on the right never lowers its value.
pub proof fn lemma_digits_val_take_le(s: Seq<char>, i: int)
    requires
        all_digits(s),
        0 <= i <= s.len(),
    ensures
        digits_val(s.take(i)) <= digits_val(s),
    decreases s.len() - i,
{
    if i == s.len() {
        assert(s.take(i) =~= s);
    } else {
        lemma_digits_val_take_le(s, i + 1);
        assert(s.take(i + 1).drop_last() =~= s.take(i));
        assert(s.take(i + 1).last() == s[i]);
        assert(all_digits(s.take(i))) by {
            assert(forall|k: int| 0 <= k < i ==> s.take(i)[k] == s[k]);
        }
        lemma_digits_val_nonneg(s.take(i));
        assert(digits_val(s.take(i + 1)) == digits_val(s.take(i)) * 10 + digit_val(s[i]));
        assert(digits_val(s.take(i)) <= digits_val(s.take(i + 1)));
    }
}

/// Parses a signed decimal integer exactly as `str::parse::<i32>` does:
/// `Some` on an optional sign followed by digits whose value fits `i32`,
/// `None` otherwise.
#[verifier::rlimit(50)]
pub fn parse_i32(s: &str) -> (r: Option<i32>)
    ensures
        r == spec_parse_i32(s@),
{
    let n = s.unicode_len();
    let mut start: usize = 0;
    let mut neg = false;
    if n > 0 {
        let c0 = s.get_char(0);
        if c0 == '+' {
            start = 1;
        } else if c0 == '-' {
            neg = true;
            start = 1;
        }
    }
    proof {
        assert(int_digits(s@) =~= s@.subrange(start as int, n as int));
        assert(int_negative(s@) == neg);
    }
    if start == n {
        return None;
    }
    let ghost ds = int_digits(s@);
    let mut acc: u64 = 0;
    let mut i = start;
    while i < n
        invariant
            start <= i <= n,
            n == s@.len(),
            start < n,
            ds == int_digits(s@),
            ds =~= s@.subrange(start as int, n as int),
            all_digits(s@.subrange(start as int, i as int)),
            acc as int == digits_val(s@.subrange(start as int, i as int)),
            acc <= 0x8000_0000,
            int_negative(s@) == neg,
        decreases n - i,
    {
        let c = s.get_char(i);
        let u = c as u32;
        if u < 0x30 || u > 0x39 {
            proof {
                assert(ds[i - start] == s@[i as int]);
                assert(!is_digit_char(ds[i - start]));
                assert(!all_digits(ds));
            }
            return None;
        }
        let d: u64 = (u - 0x30) as u64;
        let next: u64 = acc * 10 + d;
        proof {
            let pre = s@.subrange(start as int, i as int);
            let pre2 = s@.subrange(start as int, i as int + 1);
            assert(pre2.drop_last() =~= pre);
            assert(pre2.last() == s@[i as int]);
            assert(digits_val(pre2) == digits_val(pre) * 10 + digit_val(s@[i as int]));
        }
        if next > 0x8000_0000 {
            proof {
                if all_digits(ds) {
                    let pre2 = s@.subrange(start as int, i as int + 1);
                    assert(pre2 =~= ds.take(i + 1 - start));
                    lemma_digits_val_take_le(ds, i + 1 - start);
                    assert(digits_val(ds) >= next);
                }
            }
            return None;
        }
        acc = next;
        proof {
            assert(all_digits(s@.subrange(start as int, i as int + 1))) by {
                let pre2 = s@.subrange(start as int, i as int + 1);
                assert(forall|k: int| 0 <= k < pre2.len() - 1 ==> pre2[k] == s@.subrange(
                    start as int,
                    i as int,
                )[k]);
                assert(pre2.last() == s@[i as int]);
                assert(is_digit_char(s@[i as int]));
            }
        }
        i = i + 1;
    }
    proof {
        assert(s@.subrange(start as int, n as int) =~= ds);
        assert(acc as int == digits_val(ds));
        assert(all_digits(ds));
    }
    if neg {
        let v: i64 = -(acc as i64);
        Some(v as i32)
    } else {
        if acc > 0x7FFF_FFFF {
            return None;
        }
        Some(acc as i32)
    }
}

/// What the record parser makes of one line, over the line's characters.
///
/// Empty lines and comment lines are refused silently; a line must split on
/// tabs into exactly three fields, the third field into exactly three
/// whitespace-separated tokens, and the first token on `=` into exactly two
/// parts.  The confidence is the parsed value of the second part, or `0`
/// when that part is not an integer.
pub open spec fn spec_parse(s: Seq<char>) -> Option<Rec> {
    if s.len() == 0 || s[0] == '#' {
        None
    } else {
        let i1 = find_from(s, 0, '\t');
        let i2 = find_from(s, i1 + 1, '\t');
        let i3 = find_from(s, i2 + 1, '\t');
        if i1 >= s.len() || i2 >= s.len() || i3 < s.len() {
            None
        } else {
            spec_parse_field3(s, i2)
        }
    }
}

/// Second stage of `spec_parse`: the third field (everything behind the
/// second tab, at index `i2`) against the three-token shape.
pub open spec fn spec_parse_field3(s: Seq<char>, i2: int) -> Option<Rec> {
    let t0s = skip_ws(s, i2 + 1);
    let t0e = find_ws(s, t0s);
    let t1s = skip_ws(s, t0e);
    let t1e = find_ws(s, t1s);
    let t2s = skip_ws(s, t1e);
    let t2e = find_ws(s, t2s);
    if t0s >= s.len() || t1s >= s.len() || t2s >= s.len() || skip_ws(s, t2e) < s.len() {
        None
    } else {
        let ctok = s.subrange(t0s, t0e);
        let e1 = find_from(ctok, 0, '=');
        if e1 >= ctok.len() || find_from(ctok, e1 + 1, '=') < ctok.len() {
            None
        } else {
            let ci = match spec_parse_i32(ctok.subrange(e1 + 1, ctok.len() as int)) {
                Some(v) => v as int,
                None => 0,
            };
            Some(
                Rec {
                    key: s.subrange(0, i2),
                    ci,
                    c: ctok,
                    d: s.subrange(t1s, t1e),
                    t: s.subrange(t2s, t2e),
                },
            )
        }
    }
}

/// Parses one line into a record.
///
/// Returns `None` exactly when the line is empty, is a comment, or does not
/// have the three-field / three-token / two-part shape; otherwise the
/// returned record is the one `spec_parse` describes.
pub fn parse_userdb(line: &str) -> (r: Option<Userdb>)
    ensures
        r is Some <==> spec_parse(line@) is Some,
        r matches Some(u) ==> spec_parse(line@) == Some(u@),
{
    let n = line.unicode_len();
    if n == 0 {
        return None;
    }
    if line.get_char(0) == '#' {
        return None;
    }
    let i1 = find_char_from(line, 0, '\t');
    if i1 == n {
        return None;
    }
    let i2 = find_char_from(line, i1 + 1, '\t');
    if i2 == n {
        return None;
    }
    let i3 = find_char_from(line, i2 + 1, '\t');
    if i3 < n {
        return None;
    }
    let t0s = skip_ws_from(line, i2 + 1);
    if t0s == n {
        return None;
    }
    let t0e = find_ws_from(line, t0s);
    let t1s = skip_ws_from(line, t0e);
    if t1s == n {
        return None;
    }
    let t1e = find_ws_from(line, t1s);
    let t2s = skip_ws_from(line, t1e);
    if t2s == n {
        return None;
    }
    let t2e = find_ws_from(line, t2s);
    if skip_ws_from(line, t2e) < n {
        return None;
    }
    let ctok = line.substring_char(t0s, t0e);
    let clen = t0e - t0s;
    proof {
        assert(ctok@.len() == clen);
    }
    let e1 = find_char_from(ctok, 0, '=');
    if e1 == clen {
        return None;
    }
    if find_char_from(ctok, e1 + 1, '=') < clen {
        return None;
    }
    let numtok = ctok.substring_char(e1 + 1, clen);
    let ci = match parse_i32(numtok) {
        Some(v) => v,
        None => 0,
    };
    let u = Userdb {
        key: line.substring_char(0, i2).to_owned(),
        ci,
        c: ctok.to_owned(),
        d: line.substring_char(t1s, t1e).to_owned(),
        t: line.substring_char(t2s, t2e).to_owned(),
    };
    proof {
        let s = line@;
        let rec = spec_parse_field3(s, i2 as int);
        assert(numtok@ =~= ctok@.subrange(e1 + 1, ctok@.len() as int));
        assert(rec matches Some(p) && p =~= u@);
    }
    Some(u)
}

} // verus!

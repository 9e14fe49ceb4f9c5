use vstd::prelude::*;
use vstd::utf8::encode_utf8_decode_utf8;
use vstd::string::StringSliceAdditionalSpecFns;

verus! {

/// Whether two byte strings are equal.
pub fn bytes_eq(a: &[u8], b: &[u8]) -> (same: bool)
    ensures
        same == (a@ == b@),
{
    if a.len() != b.len() {
        return false;
    }
    let mut i: usize = 0;
    while i < a.len()
        invariant
            a@.len() == b@.len(),
            i <= a@.len(),
            forall|j: int| 0 <= j < i ==> a@[j] == b@[j],
        decreases a@.len() - i,
    {
        if a[i] != b[i] {
            return false;
        }
        i = i + 1;
    }
    assert(a@ =~= b@);
    true
}

/// Whether two strings hold the same characters.
pub fn str_eq(a: &str, b: &str) -> (same: bool)
    ensures
        same == (a@ == b@),
{
    let same = bytes_eq(a.as_bytes(), b.as_bytes());
    proof {
        encode_utf8_decode_utf8(a@);
        encode_utf8_decode_utf8(b@);
    }
    same
}

/// An ASCII decimal digit.
pub open spec fn is_digit(b: u8) -> bool {
    48 <= b <= 57
}

/// The value of a string of decimal digits.
pub open spec fn digits_value(s: Seq<u8>) -> int
    decreases s.len(),
{
    if s.len() == 0 {
        0
    } else {
        10 * digits_value(s.drop_last()) + (s.last() - 48)
    }
}

/// One or more decimal digits and nothing else.
pub open spec fn all_digits(s: Seq<u8>) -> bool {
    s.len() > 0 && forall|i: int| 0 <= i < s.len() ==> is_digit(#[trigger] s[i])
}

/// A decimal `i32` as Rust's `i32::from_str` reads it: an optional `+` or
/// `-`, then one or more ASCII digits and nothing else, the value in range.
pub open spec fn decimal_i32(s: Seq<u8>) -> Option<i32> {
    let neg = s.len() > 0 && s[0] == 45;
    let plus = s.len() > 0 && s[0] == 43;
    let digits = if neg || plus { s.skip(1) } else { s };
    if !all_digits(digits) {
        None
    } else {
        let v = if neg { -digits_value(digits) } else { digits_value(digits) };
        if i32::MIN <= v <= i32::MAX {
            Some(v as i32)
        } else {
            None
        }
    }
}

proof fn lemma_digits_value_grows(s: Seq<u8>, k: int)
    requires
        0 <= k <= s.len(),
        forall|i: int| 0 <= i < s.len() ==> is_digit(#[trigger] s[i]),
    ensures
        digits_value(s) >= digits_value(s.take(k)) >= 0,
    decreases s.len(),
{
    if s.len() > 0 {
        if k == s.len() {
            assert(s.take(k) =~= s);
            lemma_digits_value_grows(s.drop_last(), k - 1);
            assert(s.drop_last().take(k - 1) =~= s.drop_last());
        } else {
            assert(s.drop_last().take(k) =~= s.take(k));
            lemma_digits_value_grows(s.drop_last(), k);
        }
    }
}

/// Reads bytes `lo..hi` of `s` as a decimal `i32` (see `decimal_i32`).
pub fn parse_i32_range(s: &[u8], lo: usize, hi: usize) -> (v: Option<i32>)
    requires
        lo <= hi <= s@.len(),
    ensures
        v == decimal_i32(s@.subrange(lo as int, hi as int)),
{
    let ghost t = s@.subrange(lo as int, hi as int);
    let neg = lo < hi && s[lo] == 45;
    let plus = lo < hi && s[lo] == 43;
    let start = if neg || plus { lo + 1 } else { lo };
    let ghost digits = if neg || plus { t.skip(1) } else { t };
    assert(lo < hi ==> t[0] == s@[lo as int]);
    assert(neg == (t.len() > 0 && t[0] == 45));
    assert(plus == (t.len() > 0 && t[0] == 43));
    assert(digits =~= s@.subrange(start as int, hi as int));
    if start >= hi {
        return None;
    }
    let mut acc: i64 = 0;
    let mut i = start;
    while i < hi
        invariant
            lo <= start < hi <= s@.len(),
            digits == s@.subrange(start as int, hi as int),
            t == s@.subrange(lo as int, hi as int),
            digits == if neg || plus { t.skip(1) } else { t },
            neg == (t.len() > 0 && t[0] == 45),
            plus == (t.len() > 0 && t[0] == 43),
            start <= i <= hi,
            forall|j: int| 0 <= j < i - start ==> is_digit(#[trigger] digits[j]),
            acc == digits_value(digits.take(i - start)),
            0 <= acc <= 2147483648,
        decreases hi - i,
    {
        let b = s[i];
        if b < 48 || b > 57 {
            assert(!is_digit(digits[i - start]));
            return None;
        }
        proof {
            let k = i - start;
            assert(digits.take(k + 1).drop_last() =~= digits.take(k));
            assert(digits.take(k + 1).last() == b);
        }
        acc = acc * 10 + (b - 48) as i64;
        i = i + 1;
        if acc > 2147483648 {
            proof {
                if all_digits(digits) {
                    lemma_digits_value_grows(digits, i - start);
                }
            }
            return None;
        }
    }
    assert(digits.take(hi - start) =~= digits);
    if neg {
        Some((0 - acc) as i32)
    } else if acc > 2147483647 {
        None
    } else {
        Some(acc as i32)
    }
}

/// Positions of the `.` bytes of `b`, in order.
pub open spec fn dot_positions(b: Seq<u8>) -> Seq<int>
    decreases b.len(),
{
    if b.len() == 0 {
        Seq::empty()
    } else if b.last() == 46 {
        dot_positions(b.drop_last()).push(b.len() - 1)
    } else {
        dot_positions(b.drop_last())
    }
}

proof fn lemma_dot_positions_bound(b: Seq<u8>)
    ensures
        forall|j: int| 0 <= j < dot_positions(b).len() ==> 0 <= #[trigger] dot_positions(b)[j] < b.len()
            && b[dot_positions(b)[j]] == 46,
        forall|j: int, k: int| 0 <= j < k < dot_positions(b).len() ==> #[trigger] dot_positions(b)[j] < #[trigger] dot_positions(b)[k],
    decreases b.len(),
{
    if b.len() > 0 {
        let p = b.drop_last();
        lemma_dot_positions_bound(p);
        assert forall|j: int| 0 <= j < dot_positions(p).len() implies b[#[trigger] dot_positions(p)[j]] == 46 by {
            assert(p[dot_positions(p)[j]] == 46);
        }
        if b.last() == 46 {
            assert(dot_positions(b) == dot_positions(p).push(b.len() - 1));
        } else {
            assert(dot_positions(b) == dot_positions(p));
        }
    }
}

/// Region coordinates in a region file name `r.<x>.<z>.mca`: the name starts
/// with `r.`, ends with `.mca`, splits at `.` into exactly four parts, and its
/// second and third parts read as `i32`s.
pub open spec fn region_file_coords(b: Seq<u8>) -> Option<(i32, i32)> {
    let d = dot_positions(b);
    if b.len() >= 4 && b[0] == 114 && b[1] == 46 && b[b.len() - 4] == 46 && b[b.len() - 3] == 109
        && b[b.len() - 2] == 99 && b[b.len() - 1] == 97 && d.len() == 3 {
        match (decimal_i32(b.subrange(d[0] + 1, d[1])), decimal_i32(b.subrange(d[1] + 1, d[2]))) {
            (Some(x), Some(z)) => Some((x, z)),
            _ => None,
        }
    } else {
        None
    }
}

/// The region coordinates named by a region file name, if it is one.
pub fn parse_region_file_name(name: &str) -> (coords: Option<(i32, i32)>)
    ensures
        coords == region_file_coords(name.spec_bytes()),
{
    let b = name.as_bytes();
    let n = b.len();
    if !(n >= 4 && b[0] == 114 && b[1] == 46 && b[n - 4] == 46 && b[n - 3] == 109 && b[n - 2] == 99 && b[n - 1] == 97) {
        return None;
    }
    let mut dots: Vec<usize> = Vec::new();
    let mut i: usize = 0;
    while i < n
        invariant
            n == b@.len(),
            i <= n,
            dots@.len() == dot_positions(b@.take(i as int)).len(),
            forall|j: int| 0 <= j < dots@.len() ==> dots@[j] as int == #[trigger] dot_positions(b@.take(i as int))[j],
        decreases n - i,
    {
        proof {
            assert(b@.take(i + 1).drop_last() =~= b@.take(i as int));
        }
        if b[i] == 46 {
            dots.push(i);
        }
        i = i + 1;
    }
    assert(b@.take(n as int) =~= b@);
    proof {
        lemma_dot_positions_bound(b@);
    }
    if dots.len() != 3 {
        return None;
    }
    let x = parse_i32_range(b, dots[0] + 1, dots[1]);
    let z = parse_i32_range(b, dots[1] + 1, dots[2]);
    match (x, z) {
        (Some(x), Some(z)) => Some((x, z)),
        _ => None,
    }
}

/// Whether a dimension folder is rendered: every folder but `creative_world`
/// and those whose names start with `.`.
pub fn should_render_dimension(name: &str) -> (render: bool)
    ensures
        render == !(name@ == "creative_world"@ || (name.spec_bytes().len() > 0 && name.spec_bytes()[0] == 46)),
{
    let b = name.as_bytes();
    !(str_eq(name, "creative_world") || (b.len() > 0 && b[0] == 46))
}

/// Whether a dimension folder holds the nether.
pub fn is_nether_dimension(name: &str) -> (nether: bool)
    ensures
        nether == (name@ == "the_nether"@),
{
    str_eq(name, "the_nether")
}

} // verus!

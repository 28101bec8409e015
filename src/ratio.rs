use vstd::prelude::*;
use vstd::string::StringSliceAdditionalSpecFns;

verus! {

/// Why an aspect ratio such as `16/9` could not be read.
#[derive(Debug, Clone, Copy, PartialEq, Eq, Structural)]
pub enum AspectRatioError {
    /// None of the separators `:`, `/`, `x` occurs.
    NoSeparator,
    /// The part before the separator is not an `i32`.
    BadWidth,
    /// The part after the separator is not an `i32`.
    BadHeight,
}

/// An ASCII decimal digit.
pub open spec fn is_digit(c: u8) -> bool {
    48 <= c <= 57
}

/// The decimal value of a sequence of ASCII digits.
pub open spec fn digits_value(d: Seq<u8>) -> int
    decreases d.len(),
{
    if d.len() == 0 {
        0
    } else {
        digits_value(d.drop_last()) * 10 + (d.last() - 48)
    }
}

/// Every byte of `d` is a digit.
pub open spec fn all_digits(d: Seq<u8>) -> bool {
    forall|k: int| 0 <= k < d.len() ==> is_digit(#[trigger] d[k])
}

/// `b` starts with a sign.
pub open spec fn signed(b: Seq<u8>) -> bool {
    b.len() > 0 && (b[0] == 45 || b[0] == 43)
}

/// `b` without its sign, if it has one.
pub open spec fn unsigned_part(b: Seq<u8>) -> Seq<u8> {
    if signed(b) {
        b.drop_first()
    } else {
        b
    }
}

/// The `i32` that `str::parse` reads from `b`: an optional `+` or `-`, then
/// at least one digit and nothing else, within the range of `i32`.
pub open spec fn i32_of(b: Seq<u8>) -> Option<i32> {
    let d = unsigned_part(b);
    let v = if signed(b) && b[0] == 45 {
        -digits_value(d)
    } else {
        digits_value(d)
    };
    if d.len() > 0 && all_digits(d) && i32::MIN <= v <= i32::MAX {
        Some(v as i32)
    } else {
        None
    }
}

/// Position of the first `c` in `b`, or the length of `b` when it has none.
pub open spec fn find(b: Seq<u8>, c: u8) -> int
    decreases b.len(),
{
    if b.len() == 0 || b[0] == c {
        0
    } else {
        1 + find(b.drop_first(), c)
    }
}

/// The separator that splits an aspect ratio: the first of `:`, `/`, `x`
/// that occurs in `b`.
pub open spec fn separator_of(b: Seq<u8>) -> Option<u8> {
    if b.contains(58) {
        Some(58u8)
    } else if b.contains(47) {
        Some(47u8)
    } else if b.contains(120) {
        Some(120u8)
    } else {
        None
    }
}

/// Width and height read from `b`: the fields before the first separator and
/// between it and the next one.
pub open spec fn aspect_ratio_of(b: Seq<u8>) -> Result<(i32, i32), AspectRatioError> {
    match separator_of(b) {
        None => Err(AspectRatioError::NoSeparator),
        Some(c) => {
            let p = find(b, c);
            let rest = b.skip(p + 1);
            match (i32_of(b.take(p)), i32_of(rest.take(find(rest, c)))) {
                (None, _) => Err(AspectRatioError::BadWidth),
                (Some(_), None) => Err(AspectRatioError::BadHeight),
                (Some(w), Some(h)) => Ok((w, h)),
            }
        },
    }
}

proof fn lemma_find(b: Seq<u8>, c: u8)
    ensures
        0 <= find(b, c) <= b.len(),
        find(b, c) < b.len() ==> b[find(b, c)] == c,
        forall|j: int| 0 <= j < find(b, c) ==> b[j] != c,
        find(b, c) < b.len() <==> b.contains(c),
    decreases b.len(),
{
    if b.len() > 0 && b[0] != c {
        lemma_find(b.drop_first(), c);
        assert forall|j: int| 0 <= j < find(b, c) implies b[j] != c by {
            if j > 0 {
                assert(b[j] == b.drop_first()[j - 1]);
            }
        }
        if b.contains(c) {
            let k = choose|k: int| 0 <= k < b.len() && b[k] == c;
            assert(b.drop_first()[k - 1] == c);
        }
        if find(b, c) < b.len() {
            assert(b[find(b, c)] == b.drop_first()[find(b.drop_first(), c)]);
        }
    } else if b.len() > 0 {
        assert(b.contains(c));
    }
}

/// `find` is the only position before which `c` does not occur and at which
/// it occurs (or the end).
proof fn lemma_find_unique(b: Seq<u8>, c: u8, p: int)
    requires
        0 <= p <= b.len(),
        p < b.len() ==> b[p] == c,
        forall|j: int| 0 <= j < p ==> b[j] != c,
    ensures
        find(b, c) == p,
    decreases b.len(),
{
    if b.len() > 0 && b[0] != c {
        assert forall|j: int| 0 <= j < p - 1 implies b.drop_first()[j] != c by {
            assert(b.drop_first()[j] == b[j + 1]);
        }
        lemma_find_unique(b.drop_first(), c, p - 1);
    }
}

/// Position of the first `c` in `b` at or after `from`, or `b.len()`.
fn find_from(b: &[u8], from: usize, c: u8) -> (r: usize)
    requires
        from <= b@.len(),
    ensures
        r == from + find(b@.skip(from as int), c),
{
    let mut i = from;
    while i < b.len() && b[i] != c
        invariant
            from <= i <= b@.len(),
            forall|j: int| from <= j < i ==> b@[j] != c,
        decreases b@.len() - i,
    {
        i = i + 1;
    }
    proof {
        let s = b@.skip(from as int);
        assert forall|j: int| 0 <= j < i - from implies s[j] != c by {
            assert(s[j] == b@[from + j]);
        }
        lemma_find_unique(s, c, i - from);
    }
    i
}

proof fn lemma_digits_grow(d: Seq<u8>, n: int)
    requires
        0 <= n <= d.len(),
        forall|k: int| 0 <= k < d.len() ==> is_digit(#[trigger] d[k]),
    ensures
        digits_value(d) >= digits_value(d.take(n)) >= 0,
    decreases d.len(),
{
    if d.len() > 0 {
        if n == d.len() {
            assert(d.take(n) =~= d);
            lemma_digits_grow(d.drop_last(), n - 1);
        } else {
            lemma_digits_grow(d.drop_last(), n);
            assert(d.drop_last().take(n) =~= d.take(n));
        }
    }
}

/// The `i32` written in `b[start..end]`, as `str::parse` reads it.
fn parse_i32(b: &[u8], start: usize, end: usize) -> (r: Option<i32>)
    requires
        start <= end <= b@.len(),
    ensures
        r == i32_of(b@.subrange(start as int, end as int)),
{
    let ghost s = b@.subrange(start as int, end as int);
    let mut i = start;
    let mut negative = false;
    if i < end && (b[i] == 45 || b[i] == 43) {
        negative = b[i] == 45;
        i = i + 1;
    }
    let ghost d = b@.subrange(i as int, end as int);
    proof {
        if i > start {
            assert(s[0] == b@[start as int]);
            assert(d =~= s.drop_first());
        } else {
            assert(s.len() > 0 ==> s[0] == b@[start as int]);
            assert(d =~= s);
        }
        assert(negative <==> (s.len() > 0 && s[0] == 45));
        assert((i > start) <==> (s.len() > 0 && (s[0] == 45 || s[0] == 43)));
    }
    let ghost is_signed = i > start;
    if i == end {
        return None;
    }
    let digits_start = i;
    let mut acc: u64 = 0;
    while i < end
        invariant
            start <= digits_start <= i <= end <= b@.len(),
            d == b@.subrange(digits_start as int, end as int),
            s == b@.subrange(start as int, end as int),
            is_signed == signed(s),
            negative <==> (s.len() > 0 && s[0] == 45),
            d == unsigned_part(s),
            acc == digits_value(b@.subrange(digits_start as int, i as int)),
            acc <= 2147483648,
            forall|k: int| digits_start <= k < i ==> is_digit(#[trigger] b@[k]),
        decreases end - i,
    {
        let c = b[i];
        if c < 48 || c > 57 {
            proof {
                assert(d[i - digits_start] == c);
                assert(!is_digit(d[i - digits_start]));
                assert(!all_digits(d));
                assert(i32_of(s) is None);
            }
            return None;
        }
        let next = acc * 10 + (c - 48) as u64;
        proof {
            let t = b@.subrange(digits_start as int, i + 1);
            assert(t.drop_last() =~= b@.subrange(digits_start as int, i as int));
            assert(next == digits_value(t));
        }
        if next > 2147483648 {
            proof {
                if all_digits(d) {
                    lemma_digits_grow(d, i + 1 - digits_start);
                    assert(d.take(i + 1 - digits_start) =~= b@.subrange(digits_start as int, i + 1));
                    assert(digits_value(d) > 2147483648);
                }
                assert(i32_of(s) is None);
            }
            return None;
        }
        acc = next;
        i = i + 1;
    }
    proof {
        assert(d =~= b@.subrange(digits_start as int, i as int));
        assert forall|k: int| 0 <= k < d.len() implies is_digit(#[trigger] d[k]) by {
            assert(d[k] == b@[digits_start + k]);
        }
    }
    if negative {
        Some((0i64 - acc as i64) as i32)
    } else if acc <= 2147483647 {
        Some(acc as i32)
    } else {
        None
    }
}

/// Reads an aspect ratio written `w:h`, `w/h` or `wxh`: the separator is the
/// first of `:`, `/`, `x` that occurs, the width the field before it and the
/// height the field after it (up to a further separator).
pub fn parse_aspect_ratio(aspect_ratio: &str) -> (r: Result<(i32, i32), AspectRatioError>)
    ensures
        r == aspect_ratio_of(aspect_ratio.spec_bytes()),
{
    let b = aspect_ratio.as_bytes();
    let ghost bs = b@;
    let n = b.len();
    proof {
        assert(bs.skip(0) =~= bs);
        lemma_find(bs, 58);
        lemma_find(bs, 47);
        lemma_find(bs, 120);
    }
    let sep: u8 = if find_from(b, 0, 58) < n {
        58
    } else if find_from(b, 0, 47) < n {
        47
    } else if find_from(b, 0, 120) < n {
        120
    } else {
        return Err(AspectRatioError::NoSeparator);
    };
    let p = find_from(b, 0, sep);
    let q = find_from(b, p + 1, sep);
    proof {
        let rest = bs.skip(p + 1);
        assert(bs.take(p as int) =~= bs.subrange(0, p as int));
        lemma_find(rest, sep);
        assert(rest.take(find(rest, sep)) =~= bs.subrange(p + 1, q as int));
    }
    let width = parse_i32(b, 0, p);
    let height = parse_i32(b, p + 1, q);
    match (width, height) {
        (None, _) => Err(AspectRatioError::BadWidth),
        (Some(_), None) => Err(AspectRatioError::BadHeight),
        (Some(w), Some(h)) => Ok((w, h)),
    }
}

} // verus!

use vstd::prelude::*;

verus! {

/// An ASCII decimal digit.
pub open spec fn is_digit(b: u8) -> bool {
    48 <= b && b <= 57
}

/// The bytes that open a cut marker: `pts_time:`.
pub open spec fn marker_tag() -> Seq<u8> {
    seq![112u8, 116u8, 115u8, 95u8, 116u8, 105u8, 109u8, 101u8, 58u8]
}

/// Where the run of digits that starts at `i` ends.
pub open spec fn digits_end(s: Seq<u8>, i: int) -> int
    decreases s.len() - i,
{
    if 0 <= i < s.len() && is_digit(s[i]) {
        digits_end(s, i + 1)
    } else {
        i
    }
}

/// The number written by the digits `s[a..k]`.
pub open spec fn digits_value(s: Seq<u8>, a: int, k: int) -> int
    decreases k - a,
{
    if k <= a {
        0
    } else {
        digits_value(s, a, k - 1) * 10 + (s[k - 1] - 48)
    }
}

/// The digit at `j` of a fraction that ends at `c`, or 0 past its end.
pub open spec fn frac_digit(s: Seq<u8>, j: int, c: int) -> int {
    if j < c {
        s[j] - 48
    } else {
        0
    }
}

/// Where the marker `pts_time:<digits>.<digits>` that starts at `i` ends, if
/// one starts there.
pub open spec fn marker_end(s: Seq<u8>, i: int) -> Option<int> {
    let a = i + 9;
    let b = digits_end(s, a);
    let c = digits_end(s, b + 1);
    if 0 <= i && a <= s.len() && s.subrange(i, a) == marker_tag() && b > a && b < s.len() && s[b] == 46u8
        && c > b + 1 {
        Some(c)
    } else {
        None
    }
}

/// The time of the marker at `i`, in whole milliseconds: digits of the
/// fraction past the third are dropped.
pub open spec fn marker_ms(s: Seq<u8>, i: int) -> int {
    let a = i + 9;
    let b = digits_end(s, a);
    let c = digits_end(s, b + 1);
    digits_value(s, a, b) * 1000 + 100 * frac_digit(s, b + 1, c) + 10 * frac_digit(s, b + 2, c)
        + frac_digit(s, b + 3, c)
}

/// The times of the markers found from `i` on, scanning left to right; after
/// a marker the scan resumes where it ends.
pub open spec fn markers_from(s: Seq<u8>, i: int) -> Seq<int>
    decreases s.len() - i,
{
    if i < 0 || i >= s.len() {
        Seq::empty()
    } else {
        match marker_end(s, i) {
            Some(e) => if i < e <= s.len() {
                seq![marker_ms(s, i)] + markers_from(s, e)
            } else {
                Seq::empty()
            },
            None => markers_from(s, i + 1),
        }
    }
}

/// A sequence of machine integers as mathematical integers.
pub open spec fn as_ints(v: Seq<u64>) -> Seq<int> {
    v.map_values(|t: u64| t as int)
}

/// The times, in milliseconds, of all cut markers of a report.
pub open spec fn report_times(s: Seq<u8>) -> Seq<int> {
    markers_from(s, 0)
}

proof fn lemma_digits_end(s: Seq<u8>, i: int)
    requires
        0 <= i <= s.len(),
    ensures
        i <= digits_end(s, i) <= s.len(),
        forall|j: int| i <= j < digits_end(s, i) ==> is_digit(#[trigger] s[j]),
    decreases s.len() - i,
{
    if i < s.len() && is_digit(s[i]) {
        lemma_digits_end(s, i + 1);
    }
}

proof fn lemma_digits_value_grows(s: Seq<u8>, a: int, k: int, l: int)
    requires
        a <= k <= l,
        0 <= a,
        l <= s.len(),
        forall|j: int| a <= j < l ==> is_digit(#[trigger] s[j]),
    ensures
        0 <= digits_value(s, a, k) <= digits_value(s, a, l),
    decreases l - k,
{
    if k < l {
        lemma_digits_value_grows(s, a, k, l - 1);
        assert(is_digit(s[l - 1]));
    } else {
        lemma_digits_value_nonneg(s, a, k);
    }
}

proof fn lemma_digits_value_nonneg(s: Seq<u8>, a: int, k: int)
    requires
        0 <= a,
        k <= s.len(),
        forall|j: int| a <= j < k ==> is_digit(#[trigger] s[j]),
    ensures
        0 <= digits_value(s, a, k),
    decreases k - a,
{
    if k > a {
        lemma_digits_value_nonneg(s, a, k - 1);
        assert(is_digit(s[k - 1]));
    }
}

fn skip_digits(s: &[u8], i: usize) -> (r: usize)
    requires
        i <= s@.len(),
    ensures
        r as int == digits_end(s@, i as int),
        i <= r <= s@.len(),
{
    let mut j: usize = i;
    while j < s.len() && 48u8 <= s[j] && s[j] <= 57u8
        invariant
            i <= j <= s@.len(),
            digits_end(s@, i as int) == digits_end(s@, j as int),
        decreases s@.len() - j,
    {
        j = j + 1;
    }
    j
}

/// Where the marker that starts at `i` ends, if one starts there.
pub fn find_marker_end(s: &[u8], i: usize) -> (r: Option<usize>)
    requires
        i < s@.len(),
    ensures
        match r {
            Some(e) => marker_end(s@, i as int) == Some(e as int) && i < e <= s@.len(),
            None => marker_end(s@, i as int).is_none(),
        },
{
    let tag: [u8; 9] = [112u8, 116u8, 115u8, 95u8, 116u8, 105u8, 109u8, 101u8, 58u8];
    if s.len() - i < 9 {
        return None;
    }
    let mut k: usize = 0;
    while k < 9
        invariant
            i + 9 <= s.len(),
            k <= 9,
            tag@ == marker_tag(),
            forall|j: int| 0 <= j < k ==> s@[i + j] == marker_tag()[j],
        decreases 9 - k,
    {
        if s[i + k] != tag[k] {
            assert(s@.subrange(i as int, i + 9)[k as int] != marker_tag()[k as int]);
            return None;
        }
        k = k + 1;
    }
    assert(s@.subrange(i as int, i + 9) =~= marker_tag());
    let a = i + 9;
    let b = skip_digits(s, a);
    if b == a || b >= s.len() || s[b] != 46u8 {
        return None;
    }
    let c = skip_digits(s, b + 1);
    if c == b + 1 {
        return None;
    }
    Some(c)
}

fn frac_digit_at(s: &[u8], b: usize, d: usize, c: usize) -> (r: u64)
    requires
        b < c <= s@.len(),
        forall|k: int| b < k < c ==> is_digit(#[trigger] s@[k]),
        1 <= d,
    ensures
        r as int == frac_digit(s@, b + d, c as int),
        r <= 9,
{
    if d < c - b {
        assert(is_digit(s@[b + d]));
        (s[b + d] - 48u8) as u64
    } else {
        0
    }
}

/// The time of the marker at `i`, ending at `e`, in milliseconds; `None`
/// where it does not fit in 64 bits.
fn marker_value(s: &[u8], i: usize, e: usize) -> (r: Option<u64>)
    requires
        marker_end(s@, i as int) == Some(e as int),
    ensures
        match r {
            Some(v) => v as int == marker_ms(s@, i as int),
            None => marker_ms(s@, i as int) > u64::MAX,
        },
{
    let a = i + 9;
    let b = skip_digits(s, a);
    proof {
        lemma_digits_end(s@, a as int);
        lemma_digits_end(s@, b + 1);
    }
    let ghost c = digits_end(s@, b + 1);
    let mut v: u64 = 0;
    let mut k: usize = a;
    while k < b
        invariant
            a <= k <= b,
            a == i + 9,
            b as int == digits_end(s@, a as int),
            b < s@.len(),
            forall|j: int| a <= j < b ==> is_digit(#[trigger] s@[j]),
            c == digits_end(s@, b + 1),
            b + 1 <= c <= s@.len(),
            forall|j: int| b + 1 <= j < c ==> is_digit(#[trigger] s@[j]),
            marker_end(s@, i as int) == Some(e as int),
            v as int == digits_value(s@, a as int, k as int),
        decreases b - k,
    {
        assert(is_digit(s@[k as int]));
        let d: u64 = (s[k] - 48u8) as u64;
        if v > (u64::MAX - d) / 10 {
            proof {
                lemma_digits_value_grows(s@, a as int, k as int + 1, b as int);
                lemma_digits_value_nonneg(s@, a as int, b as int);
                assert(digits_value(s@, a as int, k + 1) > u64::MAX) by (nonlinear_arith)
                    requires v > (u64::MAX - d) / 10, d <= 9, digits_value(s@, a as int, k + 1) == v * 10 + d;
                if b + 1 < c {
                    assert(is_digit(s@[b + 1]));
                }
                if b + 2 < c {
                    assert(is_digit(s@[b + 2]));
                }
                if b + 3 < c {
                    assert(is_digit(s@[b + 3]));
                }
                let dv = digits_value(s@, a as int, b as int);
                assert(dv * 1000 >= dv) by (nonlinear_arith)
                    requires dv >= 0;
                assert(frac_digit(s@, b + 1, c) >= 0);
                assert(frac_digit(s@, b + 2, c) >= 0);
                assert(frac_digit(s@, b + 3, c) >= 0);
                assert(digits_end(s@, a as int) == b);
                assert(marker_ms(s@, i as int) == dv * 1000 + 100 * frac_digit(s@, b + 1, c) + 10 * frac_digit(s@, b + 2, c) + frac_digit(s@, b + 3, c));
            }
            return None;
        }
        v = v * 10 + d;
        k = k + 1;
    }
    proof {
        lemma_digits_value_nonneg(s@, a as int, b as int);
    }
    let f1 = frac_digit_at(s, b, 1, e);
    let f2 = frac_digit_at(s, b, 2, e);
    let f3 = frac_digit_at(s, b, 3, e);
    let frac: u64 = 100 * f1 + 10 * f2 + f3;
    if v > (u64::MAX - frac) / 1000 {
        assert(v * 1000 + frac > u64::MAX) by (nonlinear_arith)
            requires v > (u64::MAX - frac) / 1000, frac <= 999;
        return None;
    }
    Some(v * 1000 + frac)
}

/// The times, in milliseconds, of the cut markers `pts_time:<seconds>` of a
/// decoder report, in report order; `None` where one of them does not fit in
/// 64 bits.
pub fn parse_report(s: &[u8]) -> (r: Option<Vec<u64>>)
    ensures
        match r {
            Some(v) => as_ints(v@) == report_times(s@),
            None => exists|k: int| 0 <= k < report_times(s@).len() && report_times(s@)[k] > u64::MAX,
        },
{
    let mut out: Vec<u64> = Vec::new();
    let mut i: usize = 0;
    while i < s.len()
        invariant
            i <= s@.len(),
            report_times(s@) == out@.map_values(|t: u64| t as int) + markers_from(s@, i as int),
        decreases s@.len() - i,
    {
        match find_marker_end(s, i) {
            Some(e) => {
                match marker_value(s, i, e) {
                    Some(v) => {
                        let ghost before = out@;
                        out.push(v);
                        assert(out@.map_values(|t: u64| t as int) =~= before.map_values(|t: u64| t as int) + seq![v as int]);
                        assert(report_times(s@) =~= out@.map_values(|t: u64| t as int) + markers_from(s@, e as int));
                        i = e;
                    },
                    None => {
                        let ghost k = out@.len() as int;
                        assert(report_times(s@)[k] == marker_ms(s@, i as int));
                        return None;
                    },
                }
            },
            None => {
                i = i + 1;
            },
        }
    }
    assert(report_times(s@) =~= out@.map_values(|t: u64| t as int));
    Some(out)
}

} // verus!

//! Byte-level pieces of the cross-section file grammar: whitespace trimming,
//! comma-separated fields, marker search and fixed-point decimal numbers.
use vstd::prelude::*;

verus! {

/// ASCII whitespace: space, tab, line feed, vertical tab, form feed, carriage return.
pub open spec fn is_space(b: u8) -> bool {
    b == 32 || b == 9 || b == 10 || b == 11 || b == 12 || b == 13
}

pub open spec fn is_digit(b: u8) -> bool {
    48 <= b <= 57
}

/// First index at or after `i` that does not hold whitespace.
pub open spec fn skip_space(s: Seq<u8>, i: int) -> int
    decreases s.len() - i,
{
    if 0 <= i < s.len() && is_space(s[i]) {
        skip_space(s, i + 1)
    } else {
        i
    }
}

/// End of `s.subrange(lo, j)` once trailing whitespace is dropped.
pub open spec fn back_space(s: Seq<u8>, lo: int, j: int) -> int
    decreases j - lo,
{
    if lo < j <= s.len() && is_space(s[j - 1]) {
        back_space(s, lo, j - 1)
    } else {
        j
    }
}

/// `s` without leading and trailing whitespace.
pub open spec fn trim(s: Seq<u8>) -> Seq<u8> {
    let a = skip_space(s, 0);
    s.subrange(a, back_space(s, a, s.len() as int))
}

/// Index of the first non-digit at or after `i`.
pub open spec fn first_non_digit(s: Seq<u8>, i: int) -> int
    decreases s.len() - i,
{
    if 0 <= i < s.len() && is_digit(s[i]) {
        first_non_digit(s, i + 1)
    } else {
        i
    }
}

/// The number that a string of decimal digits spells.
pub open spec fn digits_value(d: Seq<u8>) -> int
    decreases d.len(),
{
    if d.len() == 0 {
        0
    } else {
        10 * digits_value(d.drop_last()) + (d.last() - 48)
    }
}

pub open spec fn all_digits(d: Seq<u8>) -> bool {
    forall|i: int| 0 <= i < d.len() ==> is_digit(#[trigger] d[i])
}

/// The digit at `i`, or 0 past the end.
pub open spec fn digit_or_zero(d: Seq<u8>, i: int) -> int {
    if i < d.len() {
        d[i] - 48
    } else {
        0
    }
}

/// Thousandths spelled by the digits after a decimal point; later digits are dropped.
pub open spec fn frac_units(d: Seq<u8>) -> int {
    digit_or_zero(d, 0) * 100 + digit_or_zero(d, 1) * 10 + digit_or_zero(d, 2)
}

/// 1 when `t` starts with a sign, else 0.
pub open spec fn sign_len(t: Seq<u8>) -> int {
    if t.len() > 0 && (t[0] == 45u8 || t[0] == 43u8) {
        1
    } else {
        0
    }
}

/// The fixed-point value (in thousandths) of a decimal number `[+-]digits[.digits]`
/// with at least one digit, or `None` when `t` is not such a number or its magnitude
/// exceeds `i64::MAX`.
pub open spec fn decimal_value(t: Seq<u8>) -> Option<i64> {
    let start = sign_len(t);
    let k = first_non_digit(t, start);
    let int_part = t.subrange(start, k);
    let frac = if k < t.len() { t.subrange(k + 1, t.len() as int) } else { Seq::empty() };
    let mag = digits_value(int_part) * 1000 + frac_units(frac);
    if (k == t.len() || (t[k] == 46u8 && all_digits(frac))) && int_part.len() + frac.len() >= 1
        && mag <= i64::MAX {
        Some(
            if start == 1 && t[0] == 45u8 {
                (-mag) as i64
            } else {
                mag as i64
            },
        )
    } else {
        None
    }
}

/// The `i32` that `t` spells as `[+-]digits`, or `None` when it spells none or the
/// value is out of range.
pub open spec fn int_value(t: Seq<u8>) -> Option<i32> {
    let start = sign_len(t);
    let d = t.subrange(start, t.len() as int);
    let v = if start == 1 && t[0] == 45u8 {
        -digits_value(d)
    } else {
        digits_value(d)
    };
    if d.len() >= 1 && all_digits(d) && i32::MIN <= v <= i32::MAX {
        Some(v as i32)
    } else {
        None
    }
}

/// The pieces of `s` between separators, as `str::split` gives them.
pub open spec fn split_on<A>(s: Seq<A>, sep: A) -> Seq<Seq<A>>
    decreases s.len(),
{
    if s.len() == 0 {
        seq![Seq::empty()]
    } else {
        let prev = split_on(s.drop_last(), sep);
        if s.last() == sep {
            prev.push(Seq::empty())
        } else {
            prev.update(prev.len() - 1, prev.last().push(s.last()))
        }
    }
}

/// Whether `needle` occurs in `hay` as a contiguous run.
pub open spec fn contains_seq(hay: Seq<u8>, needle: Seq<u8>) -> bool {
    exists|i: int| 0 <= i <= hay.len() - needle.len() && #[trigger] hay.subrange(i, i + needle.len()) == needle
}

pub proof fn lemma_split_on_len<A>(s: Seq<A>, sep: A)
    ensures
        split_on(s, sep).len() >= 1,
    decreases s.len(),
{
    if s.len() > 0 {
        lemma_split_on_len(s.drop_last(), sep);
    }
}

proof fn lemma_digits_value_nonneg(d: Seq<u8>)
    requires
        all_digits(d),
    ensures
        digits_value(d) >= 0,
    decreases d.len(),
{
    if d.len() > 0 {
        lemma_digits_value_nonneg(d.drop_last());
    }
}

proof fn lemma_first_non_digit(s: Seq<u8>, i: int)
    requires
        0 <= i <= s.len(),
    ensures
        i <= first_non_digit(s, i) <= s.len(),
        forall|j: int| i <= j < first_non_digit(s, i) ==> is_digit(#[trigger] s[j]),
        first_non_digit(s, i) < s.len() ==> !is_digit(s[first_non_digit(s, i)]),
    decreases s.len() - i,
{
    if i < s.len() && is_digit(s[i]) {
        lemma_first_non_digit(s, i + 1);
    }
}

/// A prefix of a digit string never spells more than the whole.
proof fn lemma_digits_value_prefix(d: Seq<u8>, n: int)
    requires
        all_digits(d),
        0 <= n <= d.len(),
    ensures
        digits_value(d.take(n)) <= digits_value(d),
    decreases d.len(),
{
    if n < d.len() {
        let init = d.drop_last();
        lemma_digits_value_prefix(init, n);
        lemma_digits_value_nonneg(init);
        assert(init.take(n) =~= d.take(n));
    } else {
        assert(d.take(n) =~= d);
    }
}

/// Whether `needle` occurs in `hay`.
pub fn contains_bytes(hay: &[u8], needle: &[u8]) -> (r: bool)
    ensures
        r == contains_seq(hay@, needle@),
{
    let n = hay.len();
    let m = needle.len();
    if m > n {
        return false;
    }
    let mut i: usize = 0;
    while i <= n - m
        invariant
            n == hay@.len(),
            m == needle@.len(),
            m <= n,
            i <= n - m + 1,
            forall|p: int| 0 <= p < i ==> #[trigger] hay@.subrange(p, p + m) != needle@,
        decreases n - m + 1 - i,
    {
        let mut j: usize = 0;
        while j < m && hay[i + j] == needle[j]
            invariant
                n == hay@.len(),
                m == needle@.len(),
                i + m <= n,
                j <= m,
                forall|q: int| 0 <= q < j ==> hay@[i + q] == needle@[q],
            decreases m - j,
        {
            j = j + 1;
        }
        if j == m {
            assert(hay@.subrange(i as int, i + m) =~= needle@);
            return true;
        }
        assert(hay@.subrange(i as int, i + m)[j as int] != needle@[j as int]);
        i = i + 1;
    }
    false
}

/// Splits `s` on every `sep` byte.
pub fn split_bytes(s: &[u8], sep: u8) -> (r: Vec<Vec<u8>>)
    ensures
        r@.map_values(|f: Vec<u8>| f@) == split_on(s@, sep),
{
    let mut done: Vec<Vec<u8>> = Vec::new();
    let mut cur: Vec<u8> = Vec::new();
    let mut i: usize = 0;
    assert(s@.take(0) =~= Seq::<u8>::empty());
    assert(done@.map_values(|f: Vec<u8>| f@).push(cur@) =~= split_on(s@.take(0), sep));
    while i < s.len()
        invariant
            i <= s@.len(),
            done@.map_values(|f: Vec<u8>| f@).push(cur@) == split_on(s@.take(i as int), sep),
        decreases s@.len() - i,
    {
        let b = s[i];
        let ghost before = done@.map_values(|f: Vec<u8>| f@).push(cur@);
        assert(s@.take(i + 1).drop_last() =~= s@.take(i as int));
        if b == sep {
            done.push(cur);
            cur = Vec::new();
            assert(done@.map_values(|f: Vec<u8>| f@).push(cur@) =~= before.push(Seq::empty()));
        } else {
            cur.push(b);
            assert(done@.map_values(|f: Vec<u8>| f@).push(cur@) =~= before.update(
                before.len() - 1,
                before.last().push(b),
            ));
        }
        i = i + 1;
    }
    assert(s@.take(i as int) =~= s@);
    done.push(cur);
    assert(done@.map_values(|f: Vec<u8>| f@) =~= split_on(s@, sep));
    done
}

/// ASCII whitespace as a character.
pub open spec fn is_space_char(c: char) -> bool {
    c == ' ' || c == '\t' || c == '\n' || c == '\x0B' || c == '\x0C' || c == '\r'
}

/// First index at or after `i` that does not hold a whitespace character.
pub open spec fn skip_space_chars(s: Seq<char>, i: int) -> int
    decreases s.len() - i,
{
    if 0 <= i < s.len() && is_space_char(s[i]) {
        skip_space_chars(s, i + 1)
    } else {
        i
    }
}

/// End of `s.subrange(lo, j)` once trailing whitespace characters are dropped.
pub open spec fn back_space_chars(s: Seq<char>, lo: int, j: int) -> int
    decreases j - lo,
{
    if lo < j <= s.len() && is_space_char(s[j - 1]) {
        back_space_chars(s, lo, j - 1)
    } else {
        j
    }
}

/// `s` without leading and trailing ASCII whitespace.
pub open spec fn trim_chars(s: Seq<char>) -> Seq<char> {
    let a = skip_space_chars(s, 0);
    s.subrange(a, back_space_chars(s, a, s.len() as int))
}

/// `s` without leading and trailing ASCII whitespace.
pub fn trim_text(s: &str) -> (r: String)
    ensures
        r@ == trim_chars(s@),
{
    let n = s.unicode_len();
    let mut a: usize = 0;
    while a < n && is_space_character(s.get_char(a))
        invariant
            n == s@.len(),
            a <= n,
            skip_space_chars(s@, 0) == skip_space_chars(s@, a as int),
        decreases n - a,
    {
        a = a + 1;
    }
    let mut b: usize = n;
    while b > a && is_space_character(s.get_char(b - 1))
        invariant
            n == s@.len(),
            a <= b <= n,
            a == skip_space_chars(s@, 0),
            back_space_chars(s@, a as int, n as int) == back_space_chars(s@, a as int, b as int),
        decreases b,
    {
        b = b - 1;
    }
    s.substring_char(a, b).to_owned()
}

fn is_space_character(c: char) -> (r: bool)
    ensures
        r == is_space_char(c),
{
    c == ' ' || c == '\t' || c == '\n' || c == '\x0B' || c == '\x0C' || c == '\r'
}

/// Parses an integer field, surrounding whitespace ignored.
pub fn parse_i32(f: &[u8]) -> (r: Option<i32>)
    ensures
        r == int_value(trim(f@)),
{
    let n = f.len();
    let mut a: usize = 0;
    while a < n && (f[a] == 32 || f[a] == 9 || f[a] == 10 || f[a] == 11 || f[a] == 12 || f[a] == 13)
        invariant
            n == f@.len(),
            a <= n,
            skip_space(f@, 0) == skip_space(f@, a as int),
        decreases n - a,
    {
        a = a + 1;
    }
    let mut b: usize = n;
    while b > a && (f[b - 1] == 32 || f[b - 1] == 9 || f[b - 1] == 10 || f[b - 1] == 11 || f[b
        - 1] == 12 || f[b - 1] == 13)
        invariant
            n == f@.len(),
            a <= b <= n,
            a == skip_space(f@, 0),
            back_space(f@, a as int, n as int) == back_space(f@, a as int, b as int),
        decreases b,
    {
        b = b - 1;
    }
    let ghost t = f@.subrange(a as int, b as int);
    assert(t =~= trim(f@));
    let len = b - a;
    assert(len > 0 ==> t[0] == f@[a as int]);
    let signed = len > 0 && (f[a] == 45 || f[a] == 43);
    let negative = signed && f[a] == 45;
    let start: usize = if signed { 1 } else { 0 };
    if len <= start {
        return None;
    }
    let ghost d = t.subrange(start as int, len as int);
    let mut k: usize = start;
    let mut acc: i64 = 0;
    while k < len
        invariant
            a <= b,
            b == a + len,
            t == f@.subrange(a as int, b as int),
            t == trim(f@),
            d == t.subrange(start as int, len as int),
            b <= n,
            len == t.len(),
            n == f@.len(),
            start == sign_len(t),
            start <= k <= len,
            all_digits(t.subrange(start as int, k as int)),
            acc == digits_value(t.subrange(start as int, k as int)),
            0 <= acc <= 2147483648,
        decreases len - k,
    {
        assert(t[k as int] == f@[a + k]);
        assert(t.subrange(start as int, k + 1).drop_last() =~= t.subrange(start as int, k as int));
        if !(48 <= f[a + k] && f[a + k] <= 57) {
            assert(d[k - start] == t[k as int]);
            return None;
        }
        let next: i64 = acc * 10 + (f[a + k] - 48) as i64;
        if next > 2147483648 {
            proof {
                assert(d.take(k + 1 - start) =~= t.subrange(start as int, k + 1));
                if all_digits(d) {
                    lemma_digits_value_prefix(d, k + 1 - start);
                }
            }
            return None;
        }
        acc = next;
        k = k + 1;
    }
    assert(t.subrange(start as int, k as int) =~= d);
    if negative {
        Some((-acc) as i32)
    } else if acc > 2147483647 {
        None
    } else {
        Some(acc as i32)
    }
}

/// Splits `s` on every `sep` character, as `str::split` does.
pub fn split_chars(s: &str, sep: char) -> (r: Vec<String>)
    ensures
        r@.map_values(|f: String| f@) == split_on(s@, sep),
{
    let n = s.unicode_len();
    let mut done: Vec<String> = Vec::new();
    let mut start: usize = 0;
    let mut i: usize = 0;
    assert(s@.take(0) =~= Seq::<char>::empty());
    assert(done@.map_values(|f: String| f@).push(s@.subrange(0, 0)) =~= split_on(s@.take(0), sep));
    while i < n
        invariant
            n == s@.len(),
            start <= i <= n,
            done@.map_values(|f: String| f@).push(s@.subrange(start as int, i as int)) == split_on(
                s@.take(i as int),
                sep,
            ),
        decreases n - i,
    {
        let c = s.get_char(i);
        let ghost before = done@.map_values(|f: String| f@).push(s@.subrange(start as int, i as int));
        assert(s@.take(i + 1).drop_last() =~= s@.take(i as int));
        assert(s@.take(i + 1).last() == c);
        if c == sep {
            let piece = s.substring_char(start, i).to_owned();
            let ghost old_map = done@.map_values(|f: String| f@);
            let ghost piece_view = piece@;
            assert(piece_view == s@.subrange(start as int, i as int));
            done.push(piece);
            assert(done@.map_values(|f: String| f@) =~= old_map.push(piece_view));
            start = i + 1;
            assert(s@.subrange(start as int, i + 1) =~= Seq::<char>::empty());
            assert(done@.map_values(|f: String| f@).push(s@.subrange(start as int, i + 1))
                =~= before.push(Seq::empty()));
        } else {
            assert(s@.subrange(start as int, i + 1) =~= s@.subrange(start as int, i as int).push(c));
            assert(done@.map_values(|f: String| f@).push(s@.subrange(start as int, i + 1))
                =~= before.update(before.len() - 1, before.last().push(c)));
        }
        i = i + 1;
    }
    assert(s@.take(i as int) =~= s@);
    let last = s.substring_char(start, n).to_owned();
    done.push(last);
    assert(done@.map_values(|f: String| f@) =~= split_on(s@, sep));
    done
}

/// Parses a field as a fixed-point decimal number, surrounding whitespace ignored.
pub fn parse_fixed(f: &[u8]) -> (r: Option<i64>)
    ensures
        r == decimal_value(trim(f@)),
{
    let n = f.len();
    let mut a: usize = 0;
    while a < n && (f[a] == 32 || f[a] == 9 || f[a] == 10 || f[a] == 11 || f[a] == 12 || f[a] == 13)
        invariant
            n == f@.len(),
            a <= n,
            skip_space(f@, 0) == skip_space(f@, a as int),
        decreases n - a,
    {
        a = a + 1;
    }
    let mut b: usize = n;
    while b > a && (f[b - 1] == 32 || f[b - 1] == 9 || f[b - 1] == 10 || f[b - 1] == 11 || f[b
        - 1] == 12 || f[b - 1] == 13)
        invariant
            n == f@.len(),
            a <= b <= n,
            a == skip_space(f@, 0),
            back_space(f@, a as int, n as int) == back_space(f@, a as int, b as int),
        decreases b,
    {
        b = b - 1;
    }
    let ghost t = f@.subrange(a as int, b as int);
    assert(t =~= trim(f@));
    let len = b - a;
    assert(len > 0 ==> t[0] == f@[a as int]);
    let signed = len > 0 && (f[a] == 45 || f[a] == 43);
    let negative = signed && f[a] == 45;
    let start: usize = if signed { 1 } else { 0 };
    // integer part
    let mut k: usize = start;
    let mut acc: i64 = 0;
    while k < len && 48 <= f[a + k] && f[a + k] <= 57
        invariant
            a <= b,
            b == a + len,
            t == f@.subrange(a as int, b as int),
            t == trim(f@),
            len == t.len(),
            a + len <= n,
            n == f@.len(),
            start <= k <= len,
            start == sign_len(t),
            first_non_digit(t, start as int) == first_non_digit(t, k as int),
            all_digits(t.subrange(start as int, k as int)),
            acc == digits_value(t.subrange(start as int, k as int)),
            0 <= acc,
        decreases len - k,
    {
        assert(t[k as int] == f@[a + k]);
        let d: i64 = (f[a + k] - 48) as i64;
        assert(t.subrange(start as int, k + 1).drop_last() =~= t.subrange(start as int, k as int));
        if acc > (i64::MAX - d) / 10 {
            proof {
                assert(10 * acc + d > i64::MAX) by (nonlinear_arith)
                    requires
                        acc > (i64::MAX - d) / 10,
                        0 <= d <= 9,
                ;
                lemma_first_non_digit(t, k as int + 1);
                let kk = first_non_digit(t, start as int);
                assert(kk == first_non_digit(t, k as int + 1));
                let ip = t.subrange(start as int, kk);
                assert forall|q: int| 0 <= q < ip.len() implies is_digit(#[trigger] ip[q]) by {
                    if q < k - start {
                        assert(ip[q] == t.subrange(start as int, k as int)[q]);
                    }
                }
                assert(ip.take(k + 1 - start) =~= t.subrange(start as int, k + 1));
                lemma_digits_value_prefix(ip, k + 1 - start);
                let fr = if kk < t.len() { t.subrange(kk + 1, t.len() as int) } else { Seq::empty() };
                if all_digits(fr) {
                    assert(frac_units(fr) >= 0) by {
                        if fr.len() > 0 { assert(is_digit(fr[0])); }
                        if fr.len() > 1 { assert(is_digit(fr[1])); }
                        if fr.len() > 2 { assert(is_digit(fr[2])); }
                    }
                    let dv = digits_value(ip);
                    let fu = frac_units(fr);
                    assert(dv * 1000 + fu > i64::MAX) by (nonlinear_arith)
                        requires
                            dv > i64::MAX,
                            fu >= 0,
                    ;
                }
            }
            return None;
        }
        assert(10 * acc + d <= i64::MAX) by (nonlinear_arith)
            requires
                acc <= (i64::MAX - d) / 10,
                0 <= d <= 9,
        ;
        acc = acc * 10 + d;
        k = k + 1;
    }
    assert(first_non_digit(t, k as int) == k);
    let int_len = k - start;
    // fraction part
    let mut frac_len: usize = 0;
    if k < len {
        assert(t[k as int] == f@[a + k]);
        if f[a + k] != 46 {
            return None;
        }
        let mut j: usize = k + 1;
        while j < len
            invariant
                a <= b,
                b == a + len,
                t == f@.subrange(a as int, b as int),
                t == trim(f@),
            t == trim(f@),
                len == t.len(),
                a + len <= n,
                n == f@.len(),
                k < len,
                k + 1 <= j <= len,
                start == sign_len(t),
                first_non_digit(t, start as int) == k,
                all_digits(t.subrange(k + 1, j as int)),
            decreases len - j,
        {
            assert(t[j as int] == f@[a + j]);
            assert(t.subrange(k + 1, j + 1).drop_last() =~= t.subrange(k + 1, j as int));
            if !(48 <= f[a + j] && f[a + j] <= 57) {
                assert(t.subrange(k + 1, len as int)[j - k - 1] == t[j as int]);
                return None;
            }
            j = j + 1;
        }
        frac_len = len - k - 1;
    }
    if int_len + frac_len < 1 {
        return None;
    }
    let d0: i64 = if frac_len > 0 { (f[a + k + 1] - 48) as i64 } else { 0 };
    let d1: i64 = if frac_len > 1 { (f[a + k + 2] - 48) as i64 } else { 0 };
    let d2: i64 = if frac_len > 2 { (f[a + k + 3] - 48) as i64 } else { 0 };
    let frac: i64 = d0 * 100 + d1 * 10 + d2;
    let ghost fr = if k < len { t.subrange(k + 1, len as int) } else { Seq::<u8>::empty() };
    assert(frac == frac_units(fr));
    if acc > (i64::MAX - frac) / 1000 {
        assert(1000 * acc + frac > i64::MAX) by (nonlinear_arith)
            requires
                acc > (i64::MAX - frac) / 1000,
                0 <= frac <= 999,
        ;
        return None;
    }
    assert(1000 * acc + frac <= i64::MAX) by (nonlinear_arith)
        requires
            acc <= (i64::MAX - frac) / 1000,
            0 <= frac <= 999,
            0 <= acc,
    ;
    let mag = acc * 1000 + frac;
    if negative {
        Some(-mag)
    } else {
        Some(mag)
    }
}

} // verus!

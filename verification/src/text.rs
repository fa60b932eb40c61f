//! Character-level text utilities used by the week-expression parser and the
//! grid extractor: trimming, searching, substring removal, line splitting and
//! unsigned-integer parsing, each specified over `Seq<char>`.

use vstd::prelude::*;
use vstd::string::StrSliceExecFns;

verus! {

/// Whitespace characters trimmed from the ends of cell text and of
/// week-expression parts.
pub open spec fn is_space(c: char) -> bool {
    c == ' ' || c == '\t' || c == '\n' || c == '\r'
}

fn is_space_char(c: char) -> (r: bool)
    ensures
        r == is_space(c),
{
    c == ' ' || c == '\t' || c == '\n' || c == '\r'
}

/// The sequence with its leading whitespace removed.
pub open spec fn trim_start(s: Seq<char>) -> Seq<char>
    decreases s.len(),
{
    if s.len() > 0 && is_space(s[0]) {
        trim_start(s.drop_first())
    } else {
        s
    }
}

/// The sequence with its trailing whitespace removed.
pub open spec fn trim_end(s: Seq<char>) -> Seq<char>
    decreases s.len(),
{
    if s.len() > 0 && is_space(s.last()) {
        trim_end(s.drop_last())
    } else {
        s
    }
}

/// The sequence with leading and trailing whitespace removed.
pub open spec fn trim(s: Seq<char>) -> Seq<char> {
    trim_end(trim_start(s))
}

/// Narrows `[start, end)` to the bounds of the whitespace-trimmed content of
/// that range of `v`.
pub fn trim_range(v: &Vec<char>, start: usize, end: usize) -> (r: (usize, usize))
    requires
        start <= end <= v@.len(),
    ensures
        start <= r.0 <= r.1 <= end,
        v@.subrange(r.0 as int, r.1 as int) == trim(v@.subrange(start as int, end as int)),
{
    let ghost s0 = v@.subrange(start as int, end as int);
    let mut lo = start;
    while lo < end && is_space_char(v[lo])
        invariant
            start <= lo <= end <= v@.len(),
            trim_start(s0) == trim_start(v@.subrange(lo as int, end as int)),
        decreases end - lo,
    {
        proof {
            let sub = v@.subrange(lo as int, end as int);
            assert(sub.drop_first() =~= v@.subrange(lo as int + 1, end as int));
        }
        lo += 1;
    }
    proof {
        assert(trim_start(s0) == v@.subrange(lo as int, end as int));
    }
    let mut hi = end;
    while hi > lo && is_space_char(v[hi - 1])
        invariant
            lo <= hi <= end <= v@.len(),
            trim_end(v@.subrange(lo as int, end as int)) == trim_end(
                v@.subrange(lo as int, hi as int),
            ),
        decreases hi,
    {
        proof {
            let sub = v@.subrange(lo as int, hi as int);
            assert(sub.drop_last() =~= v@.subrange(lo as int, hi as int - 1));
        }
        hi -= 1;
    }
    proof {
        assert(trim_end(v@.subrange(lo as int, hi as int)) == v@.subrange(lo as int, hi as int));
    }
    (lo, hi)
}

/// Index of the first occurrence of `c` in `s`, or `s.len()` if `c` does not
/// occur.
pub open spec fn find_at(s: Seq<char>, c: char) -> nat
    decreases s.len(),
{
    if s.len() == 0 {
        0
    } else if s[0] == c {
        0
    } else {
        1 + find_at(s.drop_first(), c)
    }
}

pub proof fn lemma_find_at(s: Seq<char>, c: char)
    ensures
        find_at(s, c) <= s.len(),
        find_at(s, c) == s.len() ==> forall|j: int| 0 <= j < s.len() ==> s[j] != c,
        find_at(s, c) < s.len() ==> s[find_at(s, c) as int] == c && (forall|j: int|
            0 <= j < find_at(s, c) ==> s[j] != c),
    decreases s.len(),
{
    if s.len() == 0 {
    } else if s[0] == c {
    } else {
        lemma_find_at(s.drop_first(), c);
        assert(forall|j: int| 1 <= j < s.len() ==> s[j] == s.drop_first()[j - 1]);
    }
}

/// Pins `find_at` from a witness: position `i` holds `c` and nothing before it
/// does (or `i == s.len()` and `c` does not occur).
pub proof fn lemma_find_at_is(s: Seq<char>, c: char, i: int)
    requires
        0 <= i <= s.len(),
        i < s.len() ==> s[i] == c,
        forall|j: int| 0 <= j < i ==> s[j] != c,
    ensures
        find_at(s, c) == i,
{
    lemma_find_at(s, c);
    let f = find_at(s, c) as int;
    if i < s.len() {
        if f < i {
            assert(s[f] != c);
        } else if f > i {
            assert(s[i] != c);
        }
    } else {
        if f < s.len() {
            assert(s[f] != c);
        }
    }
}

/// Finds the first occurrence of `c` in `v[start..end)`.
pub fn find_char_in(v: &Vec<char>, start: usize, end: usize, c: char) -> (r: Option<usize>)
    requires
        start <= end <= v@.len(),
    ensures
        ({
            let s = v@.subrange(start as int, end as int);
            match r {
                Some(i) => start <= i < end && v@[i as int] == c && find_at(s, c) == i - start,
                None => find_at(s, c) == s.len(),
            }
        }),
{
    let ghost s = v@.subrange(start as int, end as int);
    let mut i = start;
    while i < end
        invariant
            start <= i <= end <= v@.len(),
            s == v@.subrange(start as int, end as int),
            forall|j: int| 0 <= j < i - start ==> s[j] != c,
        decreases end - i,
    {
        if v[i] == c {
            proof {
                lemma_find_at_is(s, c, i - start);
            }
            return Some(i);
        }
        i += 1;
    }
    proof {
        lemma_find_at_is(s, c, s.len() as int);
    }
    None
}

/// Decimal digits.
pub open spec fn is_digit(c: char) -> bool {
    48 <= c as u32 <= 57
}

pub open spec fn digit_val(c: char) -> int {
    c as u32 - 48
}

/// The numeric value of a sequence of decimal digits, most significant first.
pub open spec fn chars_value(s: Seq<char>) -> int
    decreases s.len(),
{
    if s.len() == 0 {
        0
    } else {
        chars_value(s.drop_last()) * 10 + digit_val(s.last())
    }
}

/// A non-empty sequence consisting solely of decimal digits.
pub open spec fn is_digits(s: Seq<char>) -> bool {
    s.len() > 0 && forall|i: int| 0 <= i < s.len() ==> is_digit(s[i])
}

/// What parsing `s` as an unsigned 32-bit integer yields: the digits' value,
/// unless `s` is empty, holds a non-digit, or overflows.
pub open spec fn parse_u32_spec(s: Seq<char>) -> Option<u32> {
    if is_digits(s) && chars_value(s) <= u32::MAX {
        Some(chars_value(s) as u32)
    } else {
        None
    }
}

pub proof fn lemma_chars_value_nonneg(s: Seq<char>)
    requires
        forall|i: int| 0 <= i < s.len() ==> is_digit(s[i]),
    ensures
        chars_value(s) >= 0,
    decreases s.len(),
{
    if s.len() > 0 {
        lemma_chars_value_nonneg(s.drop_last());
    }
}

/// A digit string's value only grows as digits are appended.
pub proof fn lemma_chars_value_take_le(s: Seq<char>, k: int)
    requires
        forall|i: int| 0 <= i < s.len() ==> is_digit(s[i]),
        0 <= k <= s.len(),
    ensures
        chars_value(s.take(k)) <= chars_value(s),
    decreases s.len(),
{
    if k == s.len() {
        assert(s.take(k) =~= s);
    } else {
        let s1 = s.drop_last();
        lemma_chars_value_nonneg(s1);
        lemma_chars_value_take_le(s1, k);
        assert(s.take(k) =~= s1.take(k));
    }
}

/// Parses `v[start..end)` as an unsigned 32-bit integer.
pub fn parse_u32_range(v: &Vec<char>, start: usize, end: usize) -> (r: Option<u32>)
    requires
        start <= end <= v@.len(),
    ensures
        r == parse_u32_spec(v@.subrange(start as int, end as int)),
{
    let ghost s = v@.subrange(start as int, end as int);
    if start == end {
        return None;
    }
    let mut val: u32 = 0;
    let mut i = start;
    while i < end
        invariant
            start <= i <= end <= v@.len(),
            start < end,
            s == v@.subrange(start as int, end as int),
            forall|j: int| 0 <= j < i - start ==> is_digit(s[j]),
            val == chars_value(s.take(i - start)),
        decreases end - i,
    {
        let u = v[i] as u32;
        proof {
            assert(s[i - start] == v@[i as int]);
        }
        if u < 48 || u > 57 {
            return None;
        }
        let d = u - 48;
        proof {
            assert(s.take(i - start + 1).drop_last() =~= s.take(i - start));
            assert(s.take(i - start + 1).last() == s[i - start]);
            assert(chars_value(s.take(i - start + 1)) == val * 10 + d);
        }
        if val > (u32::MAX - d) / 10 {
            proof {
                if is_digits(s) {
                    lemma_chars_value_take_le(s, i - start + 1);
                    assert(val * 10 >= ((u32::MAX - d) / 10 + 1) * 10);
                    assert(chars_value(s) > u32::MAX);
                }
            }
            return None;
        }
        val = val * 10 + d;
        i += 1;
    }
    proof {
        assert(s.take(i - start) =~= s);
    }
    Some(val)
}

/// `text` with every leftmost, non-overlapping occurrence of `pat` removed.
pub open spec fn remove_all(text: Seq<char>, pat: Seq<char>) -> Seq<char>
    decreases text.len(),
{
    if pat.len() == 0 || text.len() < pat.len() {
        text
    } else if text.take(pat.len() as int) == pat {
        remove_all(text.skip(pat.len() as int), pat)
    } else {
        seq![text[0]] + remove_all(text.drop_first(), pat)
    }
}

/// Whether `v[i..i + pat.len())` equals `pat`.
fn window_eq(v: &Vec<char>, i: usize, pat: &Vec<char>) -> (r: bool)
    requires
        i + pat@.len() <= v@.len(),
    ensures
        r == (v@.subrange(i as int, i + pat@.len()) == pat@),
{
    let pl = pat.len();
    let n = v.len();
    let mut j: usize = 0;
    while j < pl
        invariant
            j <= pl,
            pl == pat@.len(),
            n == v@.len(),
            i + pl <= n,
            forall|k: int| 0 <= k < j ==> v@[i + k] == pat@[k],
        decreases pl - j,
    {
        if v[i + j] != pat[j] {
            proof {
                assert(v@.subrange(i as int, i + pat@.len())[j as int] == v@[i + j]);
            }
            return false;
        }
        j += 1;
    }
    proof {
        assert(v@.subrange(i as int, i + pat@.len()) =~= pat@);
    }
    true
}

/// Removes every leftmost occurrence of `pat` from `v[start..end)`.
pub fn remove_all_range(v: &Vec<char>, start: usize, end: usize, pat: &Vec<char>) -> (r: Vec<char>)
    requires
        start <= end <= v@.len(),
    ensures
        r@ == remove_all(v@.subrange(start as int, end as int), pat@),
{
    let ghost s0 = v@.subrange(start as int, end as int);
    let mut out: Vec<char> = Vec::new();
    let mut i = start;
    let pl = pat.len();
    while i < end
        invariant
            start <= i <= end <= v@.len(),
            pl == pat@.len(),
            s0 == v@.subrange(start as int, end as int),
            remove_all(s0, pat@) == out@ + remove_all(
                v@.subrange(i as int, end as int),
                pat@,
            ),
        decreases end - i,
    {
        let ghost cur = v@.subrange(i as int, end as int);
        let mut matched = false;
        if pl >= 1 && end - i >= pl {
            matched = window_eq(v, i, pat);
            proof {
                assert(v@.subrange(i as int, i + pl) =~= cur.take(pl as int));
            }
        }
        if matched {
            proof {
                assert(cur.skip(pl as int) =~= v@.subrange(i + pl, end as int));
                assert(remove_all(cur, pat@) == remove_all(
                    v@.subrange(i + pl, end as int),
                    pat@,
                ));
            }
            i += pl;
        } else {
            proof {
                assert(cur.drop_first() =~= v@.subrange(i as int + 1, end as int));
                assert(remove_all(cur, pat@) == seq![cur[0]] + remove_all(
                    cur.drop_first(),
                    pat@,
                ));
                assert(out@ + remove_all(cur, pat@) =~= out@.push(cur[0]) + remove_all(
                    cur.drop_first(),
                    pat@,
                ));
            }
            out.push(v[i]);
            i += 1;
        }
    }
    proof {
        assert(out@ + remove_all(v@.subrange(i as int, end as int), pat@) =~= out@);
    }
    out
}

/// Prepends `p` to the first part of a non-empty part list.
pub open spec fn prepend_first(p: Seq<char>, ss: Seq<Seq<char>>) -> Seq<Seq<char>> {
    seq![p + ss[0]] + ss.drop_first()
}

/// The parts of `s` between occurrences of the separator `c`, in order; an
/// empty sequence has one empty part, and adjacent separators enclose an
/// empty part.
pub open spec fn split_char(s: Seq<char>, c: char) -> Seq<Seq<char>>
    decreases s.len(),
{
    if s.len() == 0 {
        seq![Seq::<char>::empty()]
    } else if s[0] == c {
        seq![Seq::<char>::empty()] + split_char(s.drop_first(), c)
    } else {
        prepend_first(seq![s[0]], split_char(s.drop_first(), c))
    }
}

pub proof fn lemma_split_char_nonempty(s: Seq<char>, c: char)
    ensures
        split_char(s, c).len() >= 1,
    decreases s.len(),
{
    if s.len() > 0 {
        lemma_split_char_nonempty(s.drop_first(), c);
    }
}

/// Splits `v` on newline characters.
pub fn split_lines(v: &Vec<char>) -> (r: Vec<Vec<char>>)
    ensures
        r.deep_view() == split_char(v@, '\n'),
        r@.len() >= 1,
{
    let mut parts: Vec<Vec<char>> = Vec::new();
    let mut cur: Vec<char> = Vec::new();
    let n = v.len();
    let mut i: usize = 0;
    proof {
        lemma_split_char_nonempty(v@, '\n');
        assert(v@.subrange(0, n as int) =~= v@);
        assert(prepend_first(cur@, split_char(v@, '\n')) =~= split_char(v@, '\n'));
    }
    while i < n
        invariant
            i <= n,
            n == v@.len(),
            split_char(v@, '\n') == parts.deep_view() + prepend_first(
                cur@,
                split_char(v@.subrange(i as int, n as int), '\n'),
            ),
        decreases n - i,
    {
        let ghost rest = v@.subrange(i as int, n as int);
        let ghost rest1 = v@.subrange(i as int + 1, n as int);
        let ghost old_parts = parts.deep_view();
        let ghost old_cur = cur@;
        proof {
            assert(rest.drop_first() =~= rest1);
            lemma_split_char_nonempty(rest1, '\n');
        }
        if v[i] == '\n' {
            proof {
                assert(split_char(rest, '\n') == seq![Seq::<char>::empty()] + split_char(
                    rest1,
                    '\n',
                ));
                assert(prepend_first(old_cur, split_char(rest, '\n')) =~~= seq![old_cur]
                    + split_char(rest1, '\n'));
            }
            let done = cur;
            cur = Vec::new();
            parts.push(done);
            proof {
                assert(parts.deep_view() =~~= old_parts.push(old_cur));
                assert(prepend_first(cur@, split_char(rest1, '\n')) =~~= split_char(rest1, '\n'));
                assert(old_parts + (seq![old_cur] + split_char(rest1, '\n')) =~~= (
                old_parts.push(old_cur) + split_char(rest1, '\n')));
            }
        } else {
            proof {
                assert(split_char(rest, '\n') == prepend_first(
                    seq![rest[0]],
                    split_char(rest1, '\n'),
                ));
                assert(prepend_first(old_cur, split_char(rest, '\n')) =~~= prepend_first(
                    old_cur.push(rest[0]),
                    split_char(rest1, '\n'),
                ));
            }
            cur.push(v[i]);
        }
        i += 1;
    }
    proof {
        assert(v@.subrange(n as int, n as int) =~= Seq::<char>::empty());
        assert(prepend_first(cur@, split_char(Seq::<char>::empty(), '\n')) =~~= seq![cur@]);
    }
    let ghost old_parts = parts.deep_view();
    let ghost old_cur = cur@;
    parts.push(cur);
    proof {
        assert(parts.deep_view() =~~= old_parts.push(old_cur));
        assert(old_parts + seq![old_cur] =~~= old_parts.push(old_cur));
        assert(parts.deep_view() =~~= split_char(v@, '\n'));
    }
    parts
}

/// Copies `v[start..end)` into a fresh vector.
pub fn copy_range(v: &Vec<char>, start: usize, end: usize) -> (r: Vec<char>)
    requires
        start <= end <= v@.len(),
    ensures
        r@ == v@.subrange(start as int, end as int),
{
    let mut r: Vec<char> = Vec::new();
    let mut i = start;
    while i < end
        invariant
            start <= i <= end <= v@.len(),
            r@ == v@.subrange(start as int, i as int),
        decreases end - i,
    {
        r.push(v[i]);
        proof {
            assert(v@.subrange(start as int, i as int + 1) =~= v@.subrange(
                start as int,
                i as int,
            ).push(v@[i as int]));
        }
        i += 1;
    }
    r
}

/// The characters of a string slice, in order.
pub fn str_to_chars(s: &str) -> (r: Vec<char>)
    ensures
        r@ == s@,
{
    let n = s.unicode_len();
    let mut r: Vec<char> = Vec::new();
    let mut i: usize = 0;
    while i < n
        invariant
            i <= n,
            n == s@.len(),
            r@ == s@.take(i as int),
        decreases n - i,
    {
        let c = s.get_char(i);
        r.push(c);
        proof {
            assert(s@.take(i as int + 1) =~= s@.take(i as int).push(s@[i as int]));
        }
        i += 1;
    }
    proof {
        assert(s@.take(n as int) =~= s@);
    }
    r
}

/// Relies on `String`'s `FromIterator` over `char`: collecting yields a
/// string holding exactly the given characters in order.
#[verifier::external_body]
pub fn chars_to_string(v: &Vec<char>) -> (r: String)
    ensures
        r@ == v@,
{
    v.iter().collect()
}

} // verus!

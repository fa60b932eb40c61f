//! The week-expression engine: parsing week-recurrence text (ranges and
//! comma lists, optionally parenthesized, with an optional trailing week-unit
//! suffix on each number) into an ascending set of week numbers, and
//! classifying the set's recurrence pattern.

use vstd::prelude::*;

use crate::text::{
    find_at, find_char_in, parse_u32_range, parse_u32_spec, str_to_chars, trim, trim_range,
};

verus! {

/// Recurrence pattern of a set of week numbers.
#[derive(Debug, PartialEq, Eq, Structural, Clone, Copy)]
pub enum WeekType {
    /// Odd weeks forming a complete arithmetic progression over the span.
    Single,
    /// Even weeks forming a complete arithmetic progression over the span.
    Double,
    /// Every week of a contiguous range, including a single week.
    Full,
    /// An irregular set of weeks; always expanded away before a session is
    /// finalized.
    Multiple,
}

/// Failures of the week-expression engine.
#[derive(Debug, PartialEq, Eq, Structural, Clone, Copy)]
pub enum WeekError {
    /// Malformed week expression: bad range shape, non-numeric endpoint, or
    /// an expression denoting no weeks at all.
    FormatError,
    /// A week set with no members reached range construction.
    EmptyWeekSet,
}

/// The week-unit suffix character stripped from the right endpoint of a range
/// and from single week numbers.
pub open spec fn is_week_unit(c: char) -> bool {
    c == '\u{5468}'
}

/// Strictly ascending order: the well-formedness of a week set's contents.
pub open spec fn sorted_strict(q: Seq<u32>) -> bool {
    forall|i: int, j: int| 0 <= i < j < q.len() ==> q[i] < q[j]
}

/// `q` with `w` inserted at its ordered position; unchanged if already
/// present.
pub open spec fn sorted_insert(q: Seq<u32>, w: u32) -> Seq<u32>
    decreases q.len(),
{
    if q.len() == 0 {
        seq![w]
    } else if w < q[0] {
        seq![w] + q
    } else if w == q[0] {
        q
    } else {
        seq![q[0]] + sorted_insert(q.drop_first(), w)
    }
}

/// Ordered insertion keeps the order strict and adjusts membership by exactly
/// the inserted element.
pub proof fn lemma_sorted_insert(q: Seq<u32>, w: u32)
    requires
        sorted_strict(q),
    ensures
        sorted_strict(sorted_insert(q, w)),
        sorted_insert(q, w).contains(w),
        forall|x: u32| #[trigger] sorted_insert(q, w).contains(x) <==> (q.contains(x) || x == w),
        q.len() <= sorted_insert(q, w).len() <= q.len() + 1,
    decreases q.len(),
{
    let res = sorted_insert(q, w);
    if q.len() == 0 {
        assert(res =~= seq![w]);
        assert(res[0] == w);
        assert forall|x: u32| #[trigger] res.contains(x) implies (q.contains(x) || x == w) by {
            let k = choose|k: int| 0 <= k < res.len() && res[k] == x;
            assert(k == 0);
        }
    } else if w < q[0] {
        assert(res[0] == w);
        assert forall|x: u32| q.contains(x) || x == w implies #[trigger] res.contains(x) by {
            if x == w {
                assert(res[0] == x);
            } else {
                let k = choose|k: int| 0 <= k < q.len() && q[k] == x;
                assert(res[k + 1] == x);
            }
        }
        assert forall|x: u32| #[trigger] res.contains(x) implies (q.contains(x) || x == w) by {
            let k = choose|k: int| 0 <= k < res.len() && res[k] == x;
            if k > 0 {
                assert(q[k - 1] == x);
            }
        }
    } else if w == q[0] {
        assert(res.contains(w)) by {
            assert(res[0] == w);
        }
    } else {
        let q1 = q.drop_first();
        lemma_sorted_insert(q1, w);
        let r1 = sorted_insert(q1, w);
        assert(res =~= seq![q[0]] + r1);
        assert forall|i: int, j: int| 0 <= i < j < res.len() implies res[i] < res[j] by {
            if i == 0 {
                assert(r1.contains(res[j])) by {
                    assert(r1[j - 1] == res[j]);
                }
                assert(q1.contains(res[j]) || res[j] == w);
                if q1.contains(res[j]) {
                    let k = choose|k: int| 0 <= k < q1.len() && q1[k] == res[j];
                    assert(q[k + 1] == res[j]);
                }
            } else {
                assert(r1[i - 1] < r1[j - 1]);
            }
        }
        assert(res.contains(w)) by {
            let k = choose|k: int| 0 <= k < r1.len() && r1[k] == w;
            assert(res[k + 1] == w);
        }
        assert forall|x: u32| #[trigger] res.contains(x) implies (q.contains(x) || x == w) by {
            let k = choose|k: int| 0 <= k < res.len() && res[k] == x;
            if k == 0 {
                assert(q[0] == x);
            } else {
                assert(r1.contains(x)) by {
                    assert(r1[k - 1] == x);
                }
                if q1.contains(x) {
                    let m = choose|m: int| 0 <= m < q1.len() && q1[m] == x;
                    assert(q[m + 1] == x);
                }
            }
        }
        assert forall|x: u32| q.contains(x) || x == w implies #[trigger] res.contains(x) by {
            if x == w {
                assert(res.contains(w));
            } else {
                let k = choose|k: int| 0 <= k < q.len() && q[k] == x;
                if k == 0 {
                    assert(res[0] == x);
                } else {
                    assert(q1[k - 1] == x);
                    assert(r1.contains(x));
                    let m = choose|m: int| 0 <= m < r1.len() && r1[m] == x;
                    assert(res[m + 1] == x);
                }
            }
        }
    }
}

/// Ordered insertion is insertion at the first position whose element is not
/// smaller.
pub proof fn lemma_sorted_insert_at(q: Seq<u32>, w: u32, pos: int)
    requires
        sorted_strict(q),
        0 <= pos <= q.len(),
        forall|j: int| 0 <= j < pos ==> q[j] < w,
        pos < q.len() ==> q[pos] >= w,
    ensures
        sorted_insert(q, w) == if pos < q.len() && q[pos] == w {
            q
        } else {
            q.insert(pos, w)
        },
    decreases q.len(),
{
    if pos == 0 {
        if q.len() == 0 {
            assert(sorted_insert(q, w) =~= q.insert(0, w));
        } else if w < q[0] {
            assert(seq![w] + q =~= q.insert(0, w));
        }
    } else {
        let q1 = q.drop_first();
        assert(forall|j: int| 0 <= j < pos - 1 ==> q1[j] == q[j + 1]);
        lemma_sorted_insert_at(q1, w, pos - 1);
        if pos < q.len() && q[pos] == w {
            assert(seq![q[0]] + q1 =~= q);
        } else {
            assert(seq![q[0]] + q1.insert(pos - 1, w) =~= q.insert(pos, w));
        }
    }
}

/// An ordered set of unique week numbers, kept ascending.
#[derive(Debug)]
pub struct WeekSet {
    weeks: Vec<u32>,
}

impl View for WeekSet {
    type V = Seq<u32>;

    closed spec fn view(&self) -> Seq<u32> {
        self.weeks@
    }
}

impl WeekSet {
    /// The contents are strictly ascending, so each week occurs once.
    pub open spec fn wf(&self) -> bool {
        sorted_strict(self@)
    }

    pub fn new() -> (r: WeekSet)
        ensures
            r@ == Seq::<u32>::empty(),
            r.wf(),
    {
        WeekSet { weeks: Vec::new() }
    }

    pub fn len(&self) -> (r: usize)
        ensures
            r == self@.len(),
    {
        self.weeks.len()
    }

    pub fn get(&self, i: usize) -> (r: u32)
        requires
            i < self@.len(),
        ensures
            r == self@[i as int],
    {
        self.weeks[i]
    }

    /// Inserts `w` at its ordered position; no effect if already present.
    pub fn insert(&mut self, w: u32)
        requires
            old(self).wf(),
        ensures
            final(self).wf(),
            final(self)@ == sorted_insert(old(self)@, w),
    {
        let n = self.weeks.len();
        let mut pos: usize = 0;
        while pos < n && self.weeks[pos] < w
            invariant
                pos <= n,
                n == self.weeks@.len(),
                self.weeks@ == old(self).weeks@,
                forall|j: int| 0 <= j < pos ==> self.weeks@[j] < w,
            decreases n - pos,
        {
            pos += 1;
        }
        proof {
            lemma_sorted_insert_at(self@, w, pos as int);
            lemma_sorted_insert(self@, w);
        }
        if pos < n && self.weeks[pos] == w {
            return ;
        }
        self.weeks.insert(pos, w);
    }
}

/// `q` with every week in `[lo, hi]` inserted; `q` itself when `lo > hi`.
pub open spec fn insert_range(q: Seq<u32>, lo: u32, hi: u32) -> Seq<u32>
    decreases hi - lo,
{
    if lo > hi {
        q
    } else if lo == hi {
        sorted_insert(q, lo)
    } else {
        insert_range(sorted_insert(q, lo), (lo + 1) as u32, hi)
    }
}

/// Inserts every week of `[lo, hi]` into `ws`.
fn insert_range_exec(ws: &mut WeekSet, lo: u32, hi: u32)
    requires
        old(ws).wf(),
    ensures
        final(ws).wf(),
        final(ws)@ == insert_range(old(ws)@, lo, hi),
{
    if lo > hi {
        return ;
    }
    let mut w = lo;
    loop
        invariant_except_break
            lo <= w <= hi,
            ws.wf(),
            insert_range(old(ws)@, lo, hi) == insert_range(ws@, w, hi),
        ensures
            ws.wf(),
            ws@ == insert_range(old(ws)@, lo, hi),
        decreases hi - w,
    {
        ws.insert(w);
        if w == hi {
            break ;
        }
        w += 1;
    }
}

/// The part with all trailing week-unit suffix characters removed.
pub open spec fn strip_week_suffix(s: Seq<char>) -> Seq<char>
    decreases s.len(),
{
    if s.len() > 0 && is_week_unit(s.last()) {
        strip_week_suffix(s.drop_last())
    } else {
        s
    }
}

/// The weeks one comma-separated part adds to `q`: a single week number, or
/// every week of a `lo-hi` range; `None` on a malformed part.
pub open spec fn parse_part(q: Seq<u32>, part: Seq<char>) -> Option<Seq<u32>> {
    let t = trim(part);
    let i = find_at(t, '-') as int;
    if i >= t.len() {
        match parse_u32_spec(trim(strip_week_suffix(t))) {
            Some(w) => Some(sorted_insert(q, w)),
            None => None,
        }
    } else if find_at(t.skip(i + 1), '-') < t.skip(i + 1).len() {
        None
    } else {
        let lv = parse_u32_spec(trim(t.take(i)));
        let rv = parse_u32_spec(trim(strip_week_suffix(t.skip(i + 1))));
        if lv is Some && rv is Some {
            Some(insert_range(q, lv->0, rv->0))
        } else {
            None
        }
    }
}

/// The weeks the comma-separated parts of `s` add to `q`; `None` as soon as
/// one part is malformed.
pub open spec fn parse_parts(q: Seq<u32>, s: Seq<char>) -> Option<Seq<u32>>
    decreases s.len(),
{
    let i = find_at(s, ',') as int;
    if i >= s.len() {
        parse_part(q, s)
    } else {
        match parse_part(q, s.take(i)) {
            Some(q2) => parse_parts(q2, s.skip(i + 1)),
            None => None,
        }
    }
}

/// The expression with one optional leading `(` and one optional trailing `)`
/// removed.
pub open spec fn strip_parens(s: Seq<char>) -> Seq<char> {
    let a = if s.len() > 0 && s[0] == '(' {
        s.drop_first()
    } else {
        s
    };
    if a.len() > 0 && a.last() == ')' {
        a.drop_last()
    } else {
        a
    }
}

/// The ascending weeks a whole week expression denotes, or `None` when the
/// expression is malformed or denotes no week at all.
pub open spec fn parse_weeks_spec(s: Seq<char>) -> Option<Seq<u32>> {
    match parse_parts(Seq::<u32>::empty(), strip_parens(s)) {
        Some(q) => if q.len() == 0 {
            None
        } else {
            Some(q)
        },
        None => None,
    }
}

/// Strips trailing week-unit suffix characters from `v[start..h)`, returning
/// the new upper bound.
fn strip_week_suffix_exec(v: &Vec<char>, start: usize, end: usize) -> (h: usize)
    requires
        start <= end <= v@.len(),
    ensures
        start <= h <= end,
        v@.subrange(start as int, h as int) == strip_week_suffix(
            v@.subrange(start as int, end as int),
        ),
{
    let mut h = end;
    while h > start && v[h - 1] == '\u{5468}'
        invariant
            start <= h <= end <= v@.len(),
            strip_week_suffix(v@.subrange(start as int, end as int)) == strip_week_suffix(
                v@.subrange(start as int, h as int),
            ),
        decreases h,
    {
        proof {
            let sub = v@.subrange(start as int, h as int);
            assert(sub.drop_last() =~= v@.subrange(start as int, h as int - 1));
        }
        h -= 1;
    }
    proof {
        assert(strip_week_suffix(v@.subrange(start as int, h as int)) == v@.subrange(
            start as int,
            h as int,
        ));
    }
    h
}

/// Parses one comma-separated part of a week expression found at
/// `v[start..end)`, inserting the weeks it denotes into `ws`.
fn parse_part_exec(v: &Vec<char>, start: usize, end: usize, ws: &mut WeekSet) -> (r: Result<
    (),
    WeekError,
>)
    requires
        start <= end <= v@.len(),
        old(ws).wf(),
    ensures
        final(ws).wf(),
        match r {
            Ok(()) => parse_part(old(ws)@, v@.subrange(start as int, end as int)) == Some(
                final(ws)@,
            ),
            Err(e) => parse_part(old(ws)@, v@.subrange(start as int, end as int)) is None && e
                == WeekError::FormatError && final(ws)@ == old(ws)@,
        },
{
    let ghost part = v@.subrange(start as int, end as int);
    let (tlo, thi) = trim_range(v, start, end);
    let ghost t = v@.subrange(tlo as int, thi as int);
    match find_char_in(v, tlo, thi, '-') {
        None => {
            let h = strip_week_suffix_exec(v, tlo, thi);
            let (a, b) = trim_range(v, tlo, h);
            match parse_u32_range(v, a, b) {
                Some(w) => {
                    ws.insert(w);
                    Ok(())
                },
                None => Err(WeekError::FormatError),
            }
        },
        Some(j) => {
            let ghost i = j - tlo;
            proof {
                assert(t.skip(i + 1) =~= v@.subrange(j as int + 1, thi as int));
            }
            match find_char_in(v, j + 1, thi, '-') {
                Some(_) => Err(WeekError::FormatError),
                None => {
                    proof {
                        assert(t.take(i) =~= v@.subrange(tlo as int, j as int));
                    }
                    let (la, lb) = trim_range(v, tlo, j);
                    let lv = parse_u32_range(v, la, lb);
                    let h = strip_week_suffix_exec(v, j + 1, thi);
                    let (ra, rb) = trim_range(v, j + 1, h);
                    let rv = parse_u32_range(v, ra, rb);
                    match (lv, rv) {
                        (Some(l), Some(r2)) => {
                            insert_range_exec(ws, l, r2);
                            Ok(())
                        },
                        _ => Err(WeekError::FormatError),
                    }
                },
            }
        },
    }
}

/// Parses the week expression at `v[start..end)`.
pub(crate) fn parse_weeks_vec(v: &Vec<char>, start: usize, end: usize) -> (r: Result<
    WeekSet,
    WeekError,
>)
    requires
        start <= end <= v@.len(),
    ensures
        match r {
            Ok(ws) => ws.wf() && ws@.len() > 0 && parse_weeks_spec(
                v@.subrange(start as int, end as int),
            ) == Some(ws@),
            Err(e) => parse_weeks_spec(v@.subrange(start as int, end as int)) is None && e
                == WeekError::FormatError,
        },
{
    let ghost s = v@.subrange(start as int, end as int);
    let mut a = start;
    let mut b = end;
    if a < b && v[a] == '(' {
        a += 1;
    }
    if a < b && v[b - 1] == ')' {
        b -= 1;
    }
    proof {
        let x = if s.len() > 0 && s[0] == '(' {
            s.drop_first()
        } else {
            s
        };
        if s.len() > 0 && s[0] == '(' {
            assert(s.drop_first() =~= v@.subrange(start as int + 1, end as int));
        }
        assert(x =~= v@.subrange(a as int, end as int));
        if x.len() > 0 && x.last() == ')' {
            assert(x.drop_last() =~= v@.subrange(a as int, end as int - 1));
        }
        assert(strip_parens(s) =~= v@.subrange(a as int, b as int));
    }
    let ghost stripped = v@.subrange(a as int, b as int);
    let mut ws = WeekSet::new();
    let mut cur = a;
    loop
        invariant_except_break
            a <= cur <= b <= v@.len(),
            start <= end <= v@.len(),
            ws.wf(),
            stripped == v@.subrange(a as int, b as int),
            strip_parens(v@.subrange(start as int, end as int)) == stripped,
            parse_parts(Seq::<u32>::empty(), stripped) == parse_parts(
                ws@,
                v@.subrange(cur as int, b as int),
            ),
        ensures
            ws.wf(),
            parse_parts(Seq::<u32>::empty(), stripped) == Some(ws@),
        decreases b - cur,
    {
        let ghost rest = v@.subrange(cur as int, b as int);
        match find_char_in(v, cur, b, ',') {
            Some(j) => {
                proof {
                    assert(rest.take(j - cur) =~= v@.subrange(cur as int, j as int));
                    assert(rest.skip(j - cur + 1) =~= v@.subrange(j as int + 1, b as int));
                }
                match parse_part_exec(v, cur, j, &mut ws) {
                    Ok(()) => {},
                    Err(e) => {
                        return Err(e);
                    },
                }
                cur = j + 1;
            },
            None => {
                match parse_part_exec(v, cur, b, &mut ws) {
                    Ok(()) => {},
                    Err(e) => {
                        return Err(e);
                    },
                }
                break ;
            },
        }
    }
    if ws.len() == 0 {
        return Err(WeekError::FormatError);
    }
    Ok(ws)
}

/// Parses a week-expression string into the ascending set of week numbers it
/// denotes; rejects malformed parts and expressions denoting no week.
pub fn parse_weeks(input: &str) -> (r: Result<WeekSet, WeekError>)
    ensures
        match r {
            Ok(ws) => ws.wf() && ws@.len() > 0 && parse_weeks_spec(input@) == Some(ws@),
            Err(e) => parse_weeks_spec(input@) is None && e == WeekError::FormatError,
        },
{
    let v = str_to_chars(input);
    let n = v.len();
    proof {
        assert(v@.subrange(0, n as int) =~= input@);
    }
    parse_weeks_vec(&v, 0, n)
}

/// All members even.
pub open spec fn all_even(q: Seq<u32>) -> bool {
    forall|i: int| 0 <= i < q.len() ==> q[i] % 2 == 0
}

/// All members odd.
pub open spec fn all_odd(q: Seq<u32>) -> bool {
    forall|i: int| 0 <= i < q.len() ==> q[i] % 2 == 1
}

/// Every week between the first and the last member is itself a member.
pub open spec fn is_dense(q: Seq<u32>) -> bool {
    forall|w: u32| q[0] <= w <= q.last() ==> q.contains(w)
}

/// The recurrence pattern of a non-empty ascending week set: a lone week or a
/// dense range is `Full`; an all-even or all-odd set whose size matches a
/// complete every-other-week progression over the span is `Double` or
/// `Single`; anything else is `Multiple`.
pub open spec fn classify_spec(q: Seq<u32>) -> WeekType
    recommends
        q.len() > 0,
{
    if q.len() <= 1 {
        WeekType::Full
    } else if is_dense(q) {
        WeekType::Full
    } else if all_even(q) && q.len() == (q.last() - q[0]) / 2 + 1 {
        WeekType::Double
    } else if all_odd(q) && q.len() == (q.last() - q[0]) / 2 + 1 {
        WeekType::Single
    } else {
        WeekType::Multiple
    }
}

/// In an ascending set that contains every week of its span, the member at
/// position `i` is the first member plus `i`.
proof fn lemma_dense_arith(q: Seq<u32>, i: int)
    requires
        sorted_strict(q),
        q.len() > 0,
        is_dense(q),
        0 <= i < q.len(),
    ensures
        q[i] == q[0] + i,
    decreases i,
{
    if i > 0 {
        lemma_dense_arith(q, i - 1);
        assert(q[i - 1] < q[i]);
        if q[i] > q[0] + i {
            let w = (q[0] + i) as u32;
            assert(q[i] <= q.last());
            assert(q.contains(w));
            let j = choose|j: int| 0 <= j < q.len() && q[j] == w;
            if j <= i - 1 {
                assert(q[j] <= q[i - 1]);
                assert(false);
            } else if j >= i {
                assert(q[j] >= q[i]);
                assert(false);
            }
        }
    }
}

/// Determines the recurrence pattern of a week set, given its minimum
/// (`start`) and maximum (`end`) members.
pub fn determine_week_type(weeks: &WeekSet, start: u32, end: u32) -> (t: WeekType)
    requires
        weeks.wf(),
        weeks@.len() > 0,
        start == weeks@[0],
        end == weeks@.last(),
    ensures
        t == classify_spec(weeks@),
{
    let ghost q = weeks@;
    let n = weeks.len();
    if n == 1 {
        return WeekType::Full;
    }
    proof {
        assert(q[0] < q[q.len() - 1]);
    }
    // Dense contiguous range: each member is the first plus its position.
    let mut dense = true;
    let ghost mut bad: int = 0;
    let mut i: usize = 1;
    while i < n
        invariant_except_break
            1 <= i <= n,
            n == q.len(),
            q == weeks@,
            weeks.wf(),
            start == q[0],
            dense ==> forall|k: int| 0 <= k < i ==> #[trigger] q[k] == q[0] + k,
            !dense ==> 0 <= bad < q.len() && q[bad] != q[0] + bad,
        ensures
            dense ==> forall|k: int| 0 <= k < n ==> #[trigger] q[k] == q[0] + k,
            !dense ==> 0 <= bad < q.len() && q[bad] != q[0] + bad,
        decreases n - i,
    {
        let wi = weeks.get(i);
        proof {
            assert(q[i as int] > q[0]);
        }
        if (wi - start) as u64 != i as u64 {
            dense = false;
            proof {
                bad = i as int;
            }
            break ;
        }
        i += 1;
    }
    if dense {
        proof {
            assert(q.last() == q[0] + (q.len() - 1));
            assert forall|w: u32| q[0] <= w <= q.last() implies q.contains(w) by {
                let idx = w - q[0];
                assert(q[idx] == q[0] + idx);
                assert(q.contains(w));
            }
            assert(is_dense(q));
        }
        return WeekType::Full;
    }
    proof {
        if is_dense(q) {
            lemma_dense_arith(q, bad);
            assert(false);
        }
    }
    // The count a complete every-other-week progression over the span has.
    let target = (end - start) / 2 + 1;
    let mut even = true;
    let ghost mut odd_one: int = 0;
    let mut i: usize = 0;
    while i < n
        invariant_except_break
            i <= n,
            n == q.len(),
            q == weeks@,
            even ==> forall|k: int| 0 <= k < i ==> q[k] % 2 == 0,
            !even ==> 0 <= odd_one < q.len() && q[odd_one] % 2 != 0,
        ensures
            even ==> all_even(q),
            !even ==> 0 <= odd_one < q.len() && q[odd_one] % 2 != 0,
        decreases n - i,
    {
        if weeks.get(i) % 2 != 0 {
            even = false;
            proof {
                odd_one = i as int;
            }
            break ;
        }
        i += 1;
    }
    if even && n == target as usize {
        return WeekType::Double;
    }
    let mut odd = true;
    let ghost mut even_one: int = 0;
    let mut i: usize = 0;
    while i < n
        invariant_except_break
            i <= n,
            n == q.len(),
            q == weeks@,
            odd ==> forall|k: int| 0 <= k < i ==> q[k] % 2 == 1,
            !odd ==> 0 <= even_one < q.len() && q[even_one] % 2 != 1,
        ensures
            odd ==> all_odd(q),
            !odd ==> 0 <= even_one < q.len() && q[even_one] % 2 != 1,
        decreases n - i,
    {
        if weeks.get(i) % 2 != 1 {
            odd = false;
            proof {
                even_one = i as int;
            }
            break ;
        }
        i += 1;
    }
    if odd && n == target as usize {
        return WeekType::Single;
    }
    WeekType::Multiple
}

/// A resolved week set with its span endpoints and recurrence pattern.
#[derive(Debug)]
pub struct WeekRange {
    pub start_week: u32,
    pub end_week: u32,
    pub week_type: WeekType,
    pub all_weeks: WeekSet,
}

impl WeekRange {
    /// Builds a `WeekRange` from a week set: the endpoints are the set's
    /// minimum and maximum, and the pattern is the set's classification; an
    /// empty set is rejected.
    pub fn from_weeks(weeks: WeekSet) -> (r: Result<WeekRange, WeekError>)
        requires
            weeks.wf(),
        ensures
            match r {
                Ok(wr) => weeks@.len() > 0 && wr.all_weeks == weeks && wr.all_weeks.wf()
                    && wr.start_week == weeks@[0] && wr.end_week == weeks@.last() && wr.week_type
                    == classify_spec(weeks@),
                Err(e) => weeks@.len() == 0 && e == WeekError::EmptyWeekSet,
            },
    {
        let n = weeks.len();
        if n == 0 {
            return Err(WeekError::EmptyWeekSet);
        }
        let start_week = weeks.get(0);
        let end_week = weeks.get(n - 1);
        let week_type = determine_week_type(&weeks, start_week, end_week);
        Ok(WeekRange { start_week, end_week, week_type, all_weeks: weeks })
    }
}

proof fn lemma_insert_range_sorted(q: Seq<u32>, lo: u32, hi: u32)
    requires
        sorted_strict(q),
    ensures
        sorted_strict(insert_range(q, lo, hi)),
    decreases hi - lo,
{
    if lo > hi {
    } else if lo == hi {
        lemma_sorted_insert(q, lo);
    } else {
        lemma_sorted_insert(q, lo);
        lemma_insert_range_sorted(sorted_insert(q, lo), (lo + 1) as u32, hi);
    }
}

proof fn lemma_parse_part_sorted(q: Seq<u32>, part: Seq<char>)
    requires
        sorted_strict(q),
        parse_part(q, part) is Some,
    ensures
        sorted_strict(parse_part(q, part)->0),
{
    let t = trim(part);
    let i = find_at(t, '-') as int;
    if i >= t.len() {
        let w = parse_u32_spec(trim(strip_week_suffix(t)))->0;
        lemma_sorted_insert(q, w);
    } else {
        let lv = parse_u32_spec(trim(t.take(i)));
        let rv = parse_u32_spec(trim(strip_week_suffix(t.skip(i + 1))));
        if lv is Some && rv is Some {
            lemma_insert_range_sorted(q, lv->0, rv->0);
        }
    }
}

proof fn lemma_parse_parts_sorted(q: Seq<u32>, s: Seq<char>)
    requires
        sorted_strict(q),
        parse_parts(q, s) is Some,
    ensures
        sorted_strict(parse_parts(q, s)->0),
    decreases s.len(),
{
    let i = find_at(s, ',') as int;
    if i >= s.len() {
        lemma_parse_part_sorted(q, s);
    } else {
        lemma_parse_part_sorted(q, s.take(i));
        lemma_parse_parts_sorted(parse_part(q, s.take(i))->0, s.skip(i + 1));
    }
}

/// A successfully parsed week expression denotes a non-empty, strictly
/// ascending set of weeks.
pub proof fn lemma_parse_weeks_sorted(s: Seq<char>)
    requires
        parse_weeks_spec(s) is Some,
    ensures
        sorted_strict(parse_weeks_spec(s)->0),
        parse_weeks_spec(s)->0.len() > 0,
{
    lemma_parse_parts_sorted(Seq::<u32>::empty(), strip_parens(s));
}

/// The endpoints of a valid, non-empty week set are its minimum and maximum
/// members, so every resolved range brackets exactly the weeks of its set.
pub proof fn lemma_endpoints_are_min_max(q: Seq<u32>)
    requires
        sorted_strict(q),
        q.len() > 0,
    ensures
        q.contains(q[0]),
        q.contains(q.last()),
        forall|i: int| 0 <= i < q.len() ==> q[0] <= #[trigger] q[i] <= q.last(),
{
    assert(q.contains(q[0])) by {
        assert(q[0] == q[0]);
    }
    assert(q.contains(q.last())) by {
        assert(q[q.len() - 1] == q.last());
    }
}

} // verus!

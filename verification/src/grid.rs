//! The grid extractor: walks a timetable's rows and cells, isolates each
//! class-slot cell, splits stacked multi-session cell text into four-line
//! session chunks, and resolves each chunk's week expression into finalized
//! sessions.
//!
//! The first table row is the column-header row and the second the
//! period/time-axis row; both are skipped. In each data row the first cell is
//! the row-wide class label and the last cell a non-data trailer, and any
//! occurrence of the label leaking into a data cell is stripped before the
//! cell is read.

use vstd::prelude::*;
use vstd::string::StringExecFns;

use crate::text::{
    chars_to_string, copy_range, remove_all, remove_all_range, split_char, split_lines,
    str_to_chars, trim, trim_range,
};
use crate::weeks::{
    classify_spec, lemma_parse_weeks_sorted, parse_weeks, parse_weeks_spec, parse_weeks_vec,
    WeekError, WeekRange, WeekType,
};

verus! {

/// A finalized, single-range class session ready for storage.
#[derive(Debug)]
pub struct Course {
    pub name: String,
    pub class: String,
    pub teacher: String,
    pub start_week: u32,
    pub end_week: u32,
    pub week_type: WeekType,
    pub location: String,
    pub week: usize,
    pub index: usize,
}

/// The mathematical value of a `Course`: its text fields as character
/// sequences and its positions as integers.
pub ghost struct CourseV {
    pub name: Seq<char>,
    pub class: Seq<char>,
    pub teacher: Seq<char>,
    pub start_week: u32,
    pub end_week: u32,
    pub week_type: WeekType,
    pub location: Seq<char>,
    pub week: int,
    pub index: int,
}

impl View for Course {
    type V = CourseV;

    open spec fn view(&self) -> CourseV {
        CourseV {
            name: self.name@,
            class: self.class@,
            teacher: self.teacher@,
            start_week: self.start_week,
            end_week: self.end_week,
            week_type: self.week_type,
            location: self.location@,
            week: self.week as int,
            index: self.index as int,
        }
    }
}

impl DeepView for Course {
    type V = CourseV;

    open spec fn deep_view(&self) -> CourseV {
        self.view()
    }
}

/// Line `i` of a session chunk, or the given sentinel when the chunk is too
/// short.
pub open spec fn line_or(chunk: Seq<Seq<char>>, i: int, sentinel: Seq<char>) -> Seq<char> {
    if 0 <= i < chunk.len() {
        chunk[i]
    } else {
        sentinel
    }
}

/// One session per member week of an irregular set, each a single-week `Full`
/// range.
pub open spec fn expand_weeks(
    q: Seq<u32>,
    name: Seq<char>,
    class: Seq<char>,
    teacher: Seq<char>,
    location: Seq<char>,
    week: int,
    index: int,
) -> Seq<CourseV> {
    Seq::new(
        q.len(),
        |k: int|
            CourseV {
                name,
                class,
                teacher,
                start_week: q[k],
                end_week: q[k],
                week_type: WeekType::Full,
                location,
                week,
                index,
            },
    )
}

/// The sessions one four-line chunk `[name, teacher, weeks, location]`
/// yields: a missing line falls back to its sentinel, the week expression is
/// resolved and classified, and an irregular set is expanded into one session
/// per member week; `None` when the week expression is malformed.
pub open spec fn chunk_courses(
    chunk: Seq<Seq<char>>,
    class: Seq<char>,
    week: int,
    index: int,
) -> Option<Seq<CourseV>> {
    let name = line_or(chunk, 0, "None"@);
    let teacher = line_or(chunk, 1, "None"@);
    let wx = line_or(chunk, 2, "None"@);
    let location = line_or(chunk, 3, "Unknown"@);
    match parse_weeks_spec(wx) {
        Some(q) => if classify_spec(q) == WeekType::Multiple {
            Some(expand_weeks(q, name, class, teacher, location, week, index))
        } else {
            Some(
                seq![
                    CourseV {
                        name,
                        class,
                        teacher,
                        start_week: q[0],
                        end_week: q.last(),
                        week_type: classify_spec(q),
                        location,
                        week,
                        index,
                    },
                ],
            )
        },
        None => None,
    }
}

/// Concatenation over failure: the sessions of both sides, or `None` if
/// either side failed.
pub open spec fn opt_cat(a: Option<Seq<CourseV>>, b: Option<Seq<CourseV>>) -> Option<
    Seq<CourseV>,
> {
    if a is Some && b is Some {
        Some(a->0 + b->0)
    } else {
        None
    }
}

pub proof fn lemma_opt_cat_assoc(
    a: Option<Seq<CourseV>>,
    b: Option<Seq<CourseV>>,
    c: Option<Seq<CourseV>>,
)
    ensures
        opt_cat(opt_cat(a, b), c) == opt_cat(a, opt_cat(b, c)),
{
    if a is Some && b is Some && c is Some {
        assert((a->0 + b->0) + c->0 =~= a->0 + (b->0 + c->0));
    }
}

/// The sessions of a cell's lines from line `p` on, grouped into chunks of
/// four.
pub open spec fn chunks_from(
    lines: Seq<Seq<char>>,
    p: int,
    class: Seq<char>,
    week: int,
    index: int,
) -> Option<Seq<CourseV>>
    decreases lines.len() - p,
{
    if p < 0 || p >= lines.len() {
        Some(Seq::<CourseV>::empty())
    } else {
        let cend = if p + 4 <= lines.len() {
            p + 4
        } else {
            lines.len() as int
        };
        opt_cat(
            chunk_courses(lines.subrange(p, cend), class, week, index),
            chunks_from(lines, cend, class, week, index),
        )
    }
}

/// The sessions of one non-empty, label-stripped cell at column `cell_index`:
/// its text split into lines, grouped by four, each chunk resolved; the
/// column fixes the weekday and period slot, five period slots per day.
pub open spec fn cell_courses(text: Seq<char>, class: Seq<char>, cell_index: int) -> Option<
    Seq<CourseV>,
> {
    let slot = cell_index - 1;
    chunks_from(split_char(text, '\n'), 0, class, slot / 5, slot % 5)
}

/// The sessions of a data row's cells from column `i` on: the last cell is a
/// trailer and ignored, and a cell whose label-stripped text is empty is
/// skipped.
pub open spec fn cells_courses(row: Seq<Seq<char>>, class: Seq<char>, i: int) -> Option<
    Seq<CourseV>,
>
    decreases row.len() - i,
{
    if i >= row.len() - 1 {
        Some(Seq::<CourseV>::empty())
    } else {
        let cleaned = remove_all(trim(row[i]), class);
        let here = if cleaned.len() == 0 {
            Some(Seq::<CourseV>::empty())
        } else {
            cell_courses(cleaned, class, i)
        };
        opt_cat(here, cells_courses(row, class, i + 1))
    }
}

/// The sessions of one data row: the trimmed first cell is the row-wide class
/// label and is itself no session.
pub open spec fn row_courses(row: Seq<Seq<char>>) -> Option<Seq<CourseV>> {
    if row.len() == 0 {
        Some(Seq::<CourseV>::empty())
    } else {
        cells_courses(row, trim(row[0]), 1)
    }
}

/// The sessions of the table's rows from row `i` on.
pub open spec fn rows_courses(table: Seq<Seq<Seq<char>>>, i: int) -> Option<Seq<CourseV>>
    decreases table.len() - i,
{
    if i >= table.len() {
        Some(Seq::<CourseV>::empty())
    } else {
        opt_cat(row_courses(table[i]), rows_courses(table, i + 1))
    }
}

/// All finalized sessions of a timetable: every data row after the
/// column-header row and the period/time-axis row.
pub open spec fn table_courses(table: Seq<Seq<Seq<char>>>) -> Option<Seq<CourseV>> {
    rows_courses(table, 2)
}

/// Resolves one four-line session chunk starting at line `p` and appends its
/// finalized sessions to `acc`.
fn process_chunk(
    acc: &mut Vec<Course>,
    lines: &Vec<Vec<char>>,
    p: usize,
    class: &String,
    week: usize,
    index: usize,
) -> (r: Result<(), WeekError>)
    requires
        p < lines@.len(),
    ensures
        ({
            let lv = lines.deep_view();
            let cend = if p + 4 <= lv.len() {
                p + 4
            } else {
                lv.len() as int
            };
            let c = chunk_courses(lv.subrange(p as int, cend), class@, week as int, index as int);
            match r {
                Ok(()) => c is Some && final(acc).deep_view() == old(acc).deep_view() + c->0,
                Err(e) => c is None && e == WeekError::FormatError && final(acc)@ == old(acc)@,
            }
        }),
{
    let ghost lv = lines.deep_view();
    let ghost cend: int = if p + 4 <= lv.len() {
        p + 4
    } else {
        lv.len() as int
    };
    let ghost chunk = lv.subrange(p as int, cend);
    let n = lines.len();
    proof {
        assert(chunk[0] == lv[p as int]);
        assert(lv[p as int] == lines@[p as int]@);
    }
    let name = chars_to_string(&lines[p]);
    let teacher = if n - p > 1 {
        proof {
            assert(chunk[1] == lines@[p + 1]@);
        }
        chars_to_string(&lines[p + 1])
    } else {
        String::from_str("None")
    };
    let wres = if n - p > 2 {
        proof {
            assert(chunk[2] == lines@[p + 2]@);
            assert(lines@[p + 2]@.subrange(0, lines@[p + 2]@.len() as int) =~= lines@[p + 2]@);
        }
        parse_weeks_vec(&lines[p + 2], 0, lines[p + 2].len())
    } else {
        parse_weeks("None")
    };
    let location = if n - p > 3 {
        proof {
            assert(chunk[3] == lines@[p + 3]@);
        }
        chars_to_string(&lines[p + 3])
    } else {
        String::from_str("Unknown")
    };
    let ws = match wres {
        Ok(ws) => ws,
        Err(e) => {
            return Err(e);
        },
    };
    let ghost q = ws@;
    match WeekRange::from_weeks(ws) {
        Err(e) => {
            // The parser never yields an empty set, so range construction
            // cannot fail here; surface the invariant violation as an error
            // rather than aborting.
            proof {
                assert(false);
            }
            Err(e)
        },
        Ok(wr) => {
            if wr.week_type == WeekType::Multiple {
                let ghost ex = expand_weeks(
                    q,
                    name@,
                    class@,
                    teacher@,
                    location@,
                    week as int,
                    index as int,
                );
                let m = wr.all_weeks.len();
                let mut k: usize = 0;
                while k < m
                    invariant
                        k <= m,
                        m == q.len(),
                        wr.all_weeks@ == q,
                        ex == expand_weeks(
                            q,
                            name@,
                            class@,
                            teacher@,
                            location@,
                            week as int,
                            index as int,
                        ),
                        acc.deep_view() == old(acc).deep_view() + ex.subrange(0, k as int),
                    decreases m - k,
                {
                    let w = wr.all_weeks.get(k);
                    let course = Course {
                        name: name.clone(),
                        class: class.clone(),
                        teacher: teacher.clone(),
                        start_week: w,
                        end_week: w,
                        week_type: WeekType::Full,
                        location: location.clone(),
                        week,
                        index,
                    };
                    let ghost prev = acc.deep_view();
                    acc.push(course);
                    proof {
                        assert(acc.deep_view() =~= prev.push(course@));
                        assert(ex.subrange(0, k as int + 1) =~= ex.subrange(0, k as int).push(
                            ex[k as int],
                        ));
                        assert(acc.deep_view() =~= old(acc).deep_view() + ex.subrange(
                            0,
                            k as int + 1,
                        ));
                    }
                    k += 1;
                }
                proof {
                    assert(ex.subrange(0, m as int) =~= ex);
                }
                Ok(())
            } else {
                let course = Course {
                    name,
                    class: class.clone(),
                    teacher,
                    start_week: wr.start_week,
                    end_week: wr.end_week,
                    week_type: wr.week_type,
                    location,
                    week,
                    index,
                };
                let ghost prev = acc.deep_view();
                acc.push(course);
                proof {
                    assert(acc.deep_view() =~= prev.push(course@));
                    assert(prev.push(course@) =~= prev + seq![course@]);
                }
                Ok(())
            }
        },
    }
}

/// Resolves one non-empty, label-stripped cell and appends its finalized
/// sessions to `acc`.
fn process_cell(acc: &mut Vec<Course>, cleaned: &Vec<char>, class: &String, cell_index: usize) -> (r:
    Result<(), WeekError>)
    requires
        cell_index >= 1,
    ensures
        ({
            let c = cell_courses(cleaned@, class@, cell_index as int);
            match r {
                Ok(()) => c is Some && final(acc).deep_view() == old(acc).deep_view() + c->0,
                Err(e) => c is None && e == WeekError::FormatError,
            }
        }),
{
    let slot = cell_index - 1;
    let week = slot / 5;
    let index = slot % 5;
    let lines = split_lines(cleaned);
    let ghost lv = lines.deep_view();
    let nl = lines.len();
    let mut p: usize = 0;
    loop
        invariant_except_break
            p <= nl,
            nl == lv.len(),
            lv == lines.deep_view(),
            lv == split_char(cleaned@, '\n'),
            week == (cell_index - 1) as int / 5,
            index == (cell_index - 1) as int % 5,
            opt_cat(Some(old(acc).deep_view()), cell_courses(cleaned@, class@, cell_index as int))
                == opt_cat(
                Some(acc.deep_view()),
                chunks_from(lv, p as int, class@, week as int, index as int),
            ),
        ensures
            opt_cat(Some(old(acc).deep_view()), cell_courses(cleaned@, class@, cell_index as int))
                == opt_cat(
                Some(acc.deep_view()),
                chunks_from(lv, p as int, class@, week as int, index as int),
            ),
            p >= nl,
            nl == lv.len(),
            lv == split_char(cleaned@, '\n'),
        decreases nl - p,
    {
        if p >= nl {
            break ;
        }
        let ghost before = acc.deep_view();
        let ghost cend: int = if p + 4 <= lv.len() {
            p + 4
        } else {
            lv.len() as int
        };
        let ghost cc = chunk_courses(lv.subrange(p as int, cend), class@, week as int, index as int);
        match process_chunk(acc, &lines, p, class, week, index) {
            Ok(()) => {},
            Err(e) => {
                proof {
                    assert(chunks_from(lv, p as int, class@, week as int, index as int) is None);
                }
                return Err(e);
            },
        }
        proof {
            lemma_opt_cat_assoc(
                Some(before),
                cc,
                chunks_from(lv, cend, class@, week as int, index as int),
            );
            assert(opt_cat(Some(before), cc) == Some(acc.deep_view()));
        }
        p = if nl - p >= 4 {
            p + 4
        } else {
            nl
        };
    }
    proof {
        assert(chunks_from(lv, p as int, class@, week as int, index as int) == Some(
            Seq::<CourseV>::empty(),
        ));
        let c = cell_courses(cleaned@, class@, cell_index as int);
        assert(acc.deep_view() + Seq::<CourseV>::empty() =~= acc.deep_view());
        assert(c is Some);
        assert(old(acc).deep_view() + c->0 =~= acc.deep_view());
    }
    Ok(())
}

/// Extracts every finalized session from a table given as rows of cell
/// texts: rows after the two heading rows are data rows, each contributing
/// the resolved sessions of its non-empty class-slot cells.
pub fn extract_courses(table: &Vec<Vec<String>>) -> (r: Result<Vec<Course>, WeekError>)
    ensures
        match r {
            Ok(cs) => table_courses(table.deep_view()) == Some(cs.deep_view()),
            Err(e) => table_courses(table.deep_view()) is None && e == WeekError::FormatError,
        },
{
    let ghost tv = table.deep_view();
    let mut acc: Vec<Course> = Vec::new();
    let nr = table.len();
    let mut ri: usize = 2;
    proof {
        assert(acc.deep_view() =~= Seq::<CourseV>::empty());
    }
    while ri < nr
        invariant
            2 <= ri,
            nr == tv.len(),
            tv == table.deep_view(),
            table_courses(tv) == opt_cat(
                Some(acc.deep_view()),
                rows_courses(tv, ri as int),
            ),
        decreases nr - ri,
    {
        let ghost before_row = acc.deep_view();
        let ghost rv = tv[ri as int];
        let row = &table[ri];
        proof {
            assert(rv == row.deep_view());
        }
        let nc = row.len();
        if nc > 0 {
            let c0 = str_to_chars(row[0].as_str());
            proof {
                assert(c0@ == rv[0]);
                assert(c0@.subrange(0, c0@.len() as int) =~= c0@);
            }
            let (l0, l1) = trim_range(&c0, 0, c0.len());
            let label = copy_range(&c0, l0, l1);
            let class = chars_to_string(&label);
            proof {
                assert(label@ == trim(rv[0]));
            }
            let mut ci: usize = 1;
            while nc - ci > 1
                invariant
                    1 <= ci <= nc,
                    nc == rv.len(),
                    nr == tv.len(),
                    2 <= ri < nr,
                    tv == table.deep_view(),
                    rv == tv[ri as int],
                    rv == table@[ri as int].deep_view(),
                    label@ == trim(rv[0]),
                    class@ == label@,
                    table_courses(tv) == opt_cat(
                        Some(acc.deep_view()),
                        opt_cat(
                            cells_courses(rv, label@, ci as int),
                            rows_courses(tv, ri + 1),
                        ),
                    ),
                decreases nc - ci,
            {
                let ghost before = acc.deep_view();
                let cv = str_to_chars(table[ri][ci].as_str());
                proof {
                    assert(cv@ == rv[ci as int]);
                    assert(cv@.subrange(0, cv@.len() as int) =~= cv@);
                }
                let (a, b) = trim_range(&cv, 0, cv.len());
                let cleaned = remove_all_range(&cv, a, b, &label);
                proof {
                    assert(cleaned@ == remove_all(trim(rv[ci as int]), label@));
                }
                let ghost here = if cleaned@.len() == 0 {
                    Some(Seq::<CourseV>::empty())
                } else {
                    cell_courses(cleaned@, label@, ci as int)
                };
                proof {
                    assert(cells_courses(rv, label@, ci as int) == opt_cat(
                        here,
                        cells_courses(rv, label@, ci as int + 1),
                    ));
                }
                if cleaned.len() > 0 {
                    match process_cell(&mut acc, &cleaned, &class, ci) {
                        Ok(()) => {},
                        Err(e) => {
                            proof {
                                assert(cells_courses(rv, label@, ci as int) is None);
                                assert(opt_cat(
                                    cells_courses(rv, label@, ci as int),
                                    rows_courses(tv, ri + 1),
                                ) is None);
                            }
                            return Err(e);
                        },
                    }
                    proof {
                        lemma_opt_cat_assoc(
                            Some(before),
                            here,
                            opt_cat(
                                cells_courses(rv, label@, ci as int + 1),
                                rows_courses(tv, ri + 1),
                            ),
                        );
                        lemma_opt_cat_assoc(
                            here,
                            cells_courses(rv, label@, ci as int + 1),
                            rows_courses(tv, ri + 1),
                        );
                        assert(opt_cat(Some(before), here) == Some(acc.deep_view()));
                    }
                } else {
                    proof {
                        assert(acc.deep_view() + Seq::<CourseV>::empty() =~= acc.deep_view());
                        assert(opt_cat(Some(acc.deep_view()), here) == Some(acc.deep_view()));
                        lemma_opt_cat_assoc(
                            Some(acc.deep_view()),
                            here,
                            opt_cat(
                                cells_courses(rv, label@, ci as int + 1),
                                rows_courses(tv, ri + 1),
                            ),
                        );
                        lemma_opt_cat_assoc(
                            here,
                            cells_courses(rv, label@, ci as int + 1),
                            rows_courses(tv, ri + 1),
                        );
                    }
                }
                ci += 1;
            }
            proof {
                assert(cells_courses(rv, label@, ci as int) == Some(Seq::<CourseV>::empty()));
                assert(row_courses(rv) == cells_courses(rv, label@, 1));
            }
        } else {
            proof {
                assert(row_courses(rv) == Some(Seq::<CourseV>::empty()));
            }
        }
        proof {
            assert(rows_courses(tv, ri as int) == opt_cat(
                row_courses(rv),
                rows_courses(tv, ri + 1),
            ));
            let rest = rows_courses(tv, ri + 1);
            if rest is Some {
                assert(opt_cat(Some(acc.deep_view()), rest) == opt_cat(
                    Some(before_row),
                    rows_courses(tv, ri as int),
                ));
            }
        }
        ri += 1;
    }
    proof {
        assert(rows_courses(tv, ri as int) == Some(Seq::<CourseV>::empty()));
        assert(acc.deep_view() + Seq::<CourseV>::empty() =~= acc.deep_view());
    }
    Ok(acc)
}

/// Stripping a label from a cell holding exactly that label leaves nothing,
/// so such a cell is skipped.
pub proof fn lemma_remove_label_itself(p: Seq<char>)
    requires
        p.len() > 0,
    ensures
        remove_all(p, p).len() == 0,
{
    let e = p.skip(p.len() as int);
    assert(e =~= Seq::<char>::empty());
    assert(remove_all(e, p) == e);
    assert(p.take(p.len() as int) =~= p);
    assert(remove_all(p, p) == remove_all(e, p));
}

/// A data row all of whose class-slot cells reduce to nothing after label
/// stripping yields no sessions at all.
pub proof fn lemma_label_only_row_yields_no_drafts(row: Seq<Seq<char>>, class: Seq<char>, i: int)
    requires
        1 <= i,
        forall|j: int| 1 <= j < row.len() - 1 ==> remove_all(trim(#[trigger] row[j]), class).len()
            == 0,
    ensures
        cells_courses(row, class, i) == Some(Seq::<CourseV>::empty()),
    decreases row.len() - i,
{
    if i >= row.len() - 1 {
    } else {
        lemma_label_only_row_yields_no_drafts(row, class, i + 1);
        assert(Seq::<CourseV>::empty() + Seq::<CourseV>::empty() =~= Seq::<CourseV>::empty());
    }
}

/// A finalized session: never the transient `Multiple` pattern, and an
/// ordered week span.
pub open spec fn session_finalized(c: CourseV) -> bool {
    c.week_type != WeekType::Multiple && c.start_week <= c.end_week
}

pub open spec fn all_finalized(cs: Seq<CourseV>) -> bool {
    forall|k: int| 0 <= k < cs.len() ==> session_finalized(#[trigger] cs[k])
}

proof fn lemma_cat_finalized(a: Seq<CourseV>, b: Seq<CourseV>)
    requires
        all_finalized(a),
        all_finalized(b),
    ensures
        all_finalized(a + b),
{
    assert forall|k: int| 0 <= k < (a + b).len() implies session_finalized(#[trigger] (a + b)[k]) by {
        if k < a.len() {
            assert((a + b)[k] == a[k]);
        } else {
            assert((a + b)[k] == b[k - a.len()]);
        }
    }
}

proof fn lemma_chunk_finalized(chunk: Seq<Seq<char>>, class: Seq<char>, week: int, index: int)
    requires
        chunk_courses(chunk, class, week, index) is Some,
    ensures
        all_finalized(chunk_courses(chunk, class, week, index)->0),
{
    let wx = line_or(chunk, 2, "None"@);
    let q = parse_weeks_spec(wx)->0;
    lemma_parse_weeks_sorted(wx);
    if classify_spec(q) != WeekType::Multiple {
        assert(q[0] <= q.last());
    }
}

proof fn lemma_chunks_finalized(
    lines: Seq<Seq<char>>,
    p: int,
    class: Seq<char>,
    week: int,
    index: int,
)
    requires
        chunks_from(lines, p, class, week, index) is Some,
    ensures
        all_finalized(chunks_from(lines, p, class, week, index)->0),
    decreases lines.len() - p,
{
    if 0 <= p < lines.len() {
        let cend = if p + 4 <= lines.len() {
            p + 4
        } else {
            lines.len() as int
        };
        lemma_chunk_finalized(lines.subrange(p, cend), class, week, index);
        lemma_chunks_finalized(lines, cend, class, week, index);
        lemma_cat_finalized(
            chunk_courses(lines.subrange(p, cend), class, week, index)->0,
            chunks_from(lines, cend, class, week, index)->0,
        );
    }
}

proof fn lemma_cells_finalized(row: Seq<Seq<char>>, class: Seq<char>, i: int)
    requires
        cells_courses(row, class, i) is Some,
    ensures
        all_finalized(cells_courses(row, class, i)->0),
    decreases row.len() - i,
{
    if i < row.len() - 1 {
        let cleaned = remove_all(trim(row[i]), class);
        if cleaned.len() != 0 {
            lemma_chunks_finalized(split_char(cleaned, '\n'), 0, class, (i - 1) / 5, (i - 1) % 5);
        }
        lemma_cells_finalized(row, class, i + 1);
        let here = if cleaned.len() == 0 {
            Some(Seq::<CourseV>::empty())
        } else {
            cell_courses(cleaned, class, i)
        };
        lemma_cat_finalized(here->0, cells_courses(row, class, i + 1)->0);
    }
}

proof fn lemma_rows_finalized(table: Seq<Seq<Seq<char>>>, i: int)
    requires
        rows_courses(table, i) is Some,
    ensures
        all_finalized(rows_courses(table, i)->0),
    decreases table.len() - i,
{
    if i < table.len() {
        let row = table[i];
        if row.len() != 0 {
            lemma_cells_finalized(row, trim(row[0]), 1);
        }
        lemma_rows_finalized(table, i + 1);
        lemma_cat_finalized(row_courses(row)->0, rows_courses(table, i + 1)->0);
    }
}

/// Every session a successful extraction yields is finalized: an irregular
/// week set is always expanded away, so no stored session carries the
/// transient `Multiple` pattern, and every span is ordered.
pub proof fn lemma_extracted_sessions_are_finalized(table: Seq<Seq<Seq<char>>>)
    requires
        table_courses(table) is Some,
    ensures
        all_finalized(table_courses(table)->0),
{
    lemma_rows_finalized(table, 2);
}

/// What scraper's HTML parsing yields for a document: the rows of its
/// timetable table, each row its cells' concatenated text, a function of the
/// document text alone.
pub uninterp spec fn table_of(html: Seq<char>) -> Seq<Seq<Seq<char>>>;

/// Relies on scraper's `Html::parse_document` and selectors: the rows of
/// the `#timetable` table and the concatenated text of each row's `th`/`td`
/// cells depend on the document text alone.
#[verifier::external_body]
fn extract_timetable_rows(html: &str) -> (rows: Vec<Vec<String>>)
    ensures
        rows.deep_view() == table_of(html@),
{
    let table_sel = scraper::Selector::parse("#timetable").unwrap();
    let tr_sel = scraper::Selector::parse("tr").unwrap();
    let cell_sel = scraper::Selector::parse("th,td").unwrap();
    let doc = scraper::Html::parse_document(html);
    match doc.select(&table_sel).next() {
        None => Vec::new(),
        Some(table) => table
            .select(&tr_sel)
            .map(|tr| tr.select(&cell_sel).map(|c| c.text().collect()).collect())
            .collect(),
    }
}

/// Parses a timetable document and extracts its finalized sessions: the
/// timetable table's data rows, each cell's stacked sessions resolved and
/// expanded.
pub fn parse_classes_course_info(html: &str) -> (r: Result<Vec<Course>, WeekError>)
    ensures
        match r {
            Ok(cs) => table_courses(table_of(html@)) == Some(cs.deep_view()),
            Err(e) => table_courses(table_of(html@)) is None && e == WeekError::FormatError,
        },
{
    let rows = extract_timetable_rows(html);
    extract_courses(&rows)
}

} // verus!

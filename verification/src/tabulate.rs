//! Plain-text table formatting for the final statistics printout.
//!
//! Columns are sized to the widest visible entry (ANSI escape sequences
//! are not counted), cells are padded with spaces and joined with
//! `" | "`; an optional header row is followed by a dashed separator.

use crate::ansi::spec_visible_len;
use crate::ansi::visible_len;
use vstd::prelude::*;
use vstd::string::StringExecFns;

verus! {

/// `n` spaces (none for non-positive `n`).
pub open spec fn spaces(n: int) -> Seq<char> {
    if n <= 0 {
        Seq::<char>::empty()
    } else {
        Seq::new(n as nat, |i: int| ' ')
    }
}

/// `n` dashes (none for non-positive `n`).
pub open spec fn dashes(n: int) -> Seq<char> {
    if n <= 0 {
        Seq::<char>::empty()
    } else {
        Seq::new(n as nat, |i: int| '-')
    }
}

/// A cell padded with spaces up to the visible width `w`.
pub open spec fn padded(item: Seq<char>, w: int) -> Seq<char> {
    item + spaces(w - spec_visible_len(item))
}

/// The separator between two cells.
pub open spec fn col_sep() -> Seq<char> {
    seq![' ', '|', ' ']
}

/// The row's cells padded to their column widths and joined.
pub open spec fn format_row_spec(row: Seq<Seq<char>>, widths: Seq<int>) -> Seq<char>
    recommends
        row.len() <= widths.len(),
    decreases row.len(),
{
    if row.len() == 0 {
        Seq::<char>::empty()
    } else if row.len() == 1 {
        padded(row[0], widths[0])
    } else {
        format_row_spec(row.drop_last(), widths) + col_sep() + padded(
            row.last(),
            widths[row.len() - 1],
        )
    }
}

/// The dashed separator line under a header row.
pub open spec fn separator_spec(widths: Seq<int>) -> Seq<char>
    decreases widths.len(),
{
    if widths.len() == 0 {
        Seq::<char>::empty()
    } else if widths.len() == 1 {
        dashes(widths[0])
    } else {
        separator_spec(widths.drop_last()) + seq!['-', '+', '-'] + dashes(widths.last())
    }
}

/// The number of cells of the widest row.
pub open spec fn max_cols(rows: Seq<Seq<Seq<char>>>) -> int
    decreases rows.len(),
{
    if rows.len() == 0 {
        0
    } else {
        let rest = max_cols(rows.drop_last());
        if rows.last().len() > rest {
            rows.last().len() as int
        } else {
            rest
        }
    }
}

/// The visible width of column `i`: the widest cell of that column over
/// all rows (0 where no row reaches it).
pub open spec fn col_width(rows: Seq<Seq<Seq<char>>>, i: int) -> int
    decreases rows.len(),
{
    if rows.len() == 0 {
        0
    } else {
        let rest = col_width(rows.drop_last(), i);
        let cur = if 0 <= i < rows.last().len() {
            spec_visible_len(rows.last()[i])
        } else {
            0
        };
        if cur > rest {
            cur
        } else {
            rest
        }
    }
}

/// The views of one row's cells.
pub open spec fn row_view(r: Seq<String>) -> Seq<Seq<char>> {
    Seq::new(r.len(), |i: int| r[i]@)
}

/// The views of the rows' cells.
pub open spec fn rows_view(rows: Seq<Vec<String>>) -> Seq<Seq<Seq<char>>> {
    Seq::new(rows.len(), |i: int| row_view(rows[i]@))
}

/// The widths as mathematical integers.
pub open spec fn widths_view(w: Seq<usize>) -> Seq<int> {
    Seq::new(w.len(), |i: int| w[i] as int)
}

/// The substituted rows of optional cells.
pub open spec fn subbed_view(rows: Seq<Vec<Option<String>>>, m: Seq<char>) -> Seq<Seq<Seq<char>>> {
    Seq::new(rows.len(), |i: int| subst_row(rows[i]@, m))
}

/// Append `n` copies of `c` (given as a one-character string) to `out`.
fn push_repeat(out: &mut String, piece: &str, n: usize, Ghost(c): Ghost<char>)
    requires
        piece@ == seq![c],
    ensures
        final(out)@ == old(out)@ + Seq::new(n as nat, |i: int| c),
{
    let mut i: usize = 0;
    while i < n
        invariant
            i <= n,
            piece@ == seq![c],
            out@ == old(out)@ + Seq::new(i as nat, |j: int| c),
        decreases n - i,
    {
        out.append(piece);
        i = i + 1;
        proof {
            assert(out@ =~= old(out)@ + Seq::new(i as nat, |j: int| c));
        }
    }
    proof {
        assert(out@ =~= old(out)@ + Seq::new(n as nat, |j: int| c));
    }
}

/// Format one row against the column widths.
fn format_row(row: &Vec<String>, widths: &Vec<usize>) -> (r: String)
    requires
        row@.len() <= widths@.len(),
    ensures
        r@ == format_row_spec(
            row_view(row@),
            widths_view(widths@),
        ),
{
    let ghost rview = row_view(row@);
    let ghost wview = widths_view(widths@);
    let mut out: String = String::new();
    let mut i: usize = 0;
    while i < row.len()
        invariant
            i <= row@.len() <= widths@.len(),
            rview == row_view(row@),
            wview == widths_view(widths@),
            out@ == format_row_spec(rview.take(i as int), wview),
        decreases row@.len() - i,
    {
        proof {
            assert(rview.take(i + 1).drop_last() =~= rview.take(i as int));
            assert(rview.take(i + 1).last() == rview[i as int]);
        }
        if i > 0 {
            proof {
                reveal_strlit(" | ");
            }
            out.append(" | ");
            proof {
                assert(" | "@ =~= col_sep());
            }
        }
        let item: &String = &row[i];
        out.append(item.as_str());
        let vis: usize = visible_len(item.as_str());
        let w: usize = widths[i];
        let pad: usize = if w > vis {
            w - vis
        } else {
            0
        };
        proof {
            reveal_strlit(" ");
            assert(" "@ =~= seq![' ']);
        }
        push_repeat(&mut out, " ", pad, Ghost(' '));
        proof {
            assert(Seq::new(pad as nat, |j: int| ' ') =~= spaces(
                wview[i as int] - spec_visible_len(rview[i as int]),
            ));
            assert(out@ =~= format_row_spec(rview.take(i + 1), wview));
        }
        i = i + 1;
    }
    proof {
        assert(rview.take(row@.len() as int) =~= rview);
    }
    out
}

/// The dashed separator line for the column widths.
fn separator_line(widths: &Vec<usize>) -> (r: String)
    ensures
        r@ == separator_spec(widths_view(widths@)),
{
    let ghost wview = widths_view(widths@);
    let mut out: String = String::new();
    let mut i: usize = 0;
    while i < widths.len()
        invariant
            i <= widths@.len(),
            wview == widths_view(widths@),
            out@ == separator_spec(wview.take(i as int)),
        decreases widths@.len() - i,
    {
        proof {
            assert(wview.take(i + 1).drop_last() =~= wview.take(i as int));
            assert(wview.take(i + 1).last() == wview[i as int]);
        }
        if i > 0 {
            proof {
                reveal_strlit("-+-");
            }
            out.append("-+-");
            proof {
                assert("-+-"@ =~= seq!['-', '+', '-']);
            }
        }
        proof {
            reveal_strlit("-");
            assert("-"@ =~= seq!['-']);
        }
        push_repeat(&mut out, "-", widths[i], Ghost('-'));
        proof {
            assert(Seq::new(widths@[i as int] as nat, |j: int| '-') =~= dashes(wview[i as int]));
            assert(out@ =~= separator_spec(wview.take(i + 1)));
        }
        i = i + 1;
    }
    proof {
        assert(wview.take(widths@.len() as int) =~= wview);
    }
    out
}

/// The per-column visible widths of `rows`.
fn column_widths(rows: &Vec<Vec<String>>) -> (r: Vec<usize>)
    ensures
        r@.len() == max_cols(rows_view(rows@)),
        forall|i: int| 0 <= i < r@.len() ==> r@[i] == col_width(rows_view(rows@), i),
{
    let ghost rv = rows_view(rows@);
    let mut cols: usize = 0;
    let mut k: usize = 0;
    while k < rows.len()
        invariant
            k <= rows@.len(),
            rv == rows_view(rows@),
            cols == max_cols(rv.take(k as int)),
        decreases rows@.len() - k,
    {
        proof {
            assert(rv.take(k + 1).drop_last() =~= rv.take(k as int));
            assert(rv.take(k + 1).last() == rv[k as int]);
        }
        if rows[k].len() > cols {
            cols = rows[k].len();
        }
        k = k + 1;
    }
    proof {
        assert(rv.take(rows@.len() as int) =~= rv);
    }
    let mut widths: Vec<usize> = Vec::new();
    let mut i: usize = 0;
    while i < cols
        invariant
            i <= cols,
            rv == rows_view(rows@),
            widths@.len() == i,
            forall|j: int| 0 <= j < i ==> widths@[j] == col_width(rv, j),
        decreases cols - i,
    {
        let mut w: usize = 0;
        let mut k2: usize = 0;
        while k2 < rows.len()
            invariant
                k2 <= rows@.len(),
                rv == rows_view(rows@),
                w == col_width(rv.take(k2 as int), i as int),
            decreases rows@.len() - k2,
        {
            proof {
                assert(rv.take(k2 + 1).drop_last() =~= rv.take(k2 as int));
                assert(rv.take(k2 + 1).last() == rv[k2 as int]);
            }
            if i < rows[k2].len() {
                let vis: usize = visible_len(rows[k2][i].as_str());
                if vis > w {
                    w = vis;
                }
            }
            k2 = k2 + 1;
        }
        proof {
            assert(rv.take(rows@.len() as int) =~= rv);
        }
        widths.push(w);
        i = i + 1;
    }
    widths
}

/// Format rows as a plain table: columns padded to the widest visible
/// cell, cells joined with " | ", and, when headers are given, the header
/// row first with a dashed separator under it. An empty input gives no
/// lines.
pub fn simple_tabulate(data: &Vec<Vec<String>>, headers: Option<&Vec<String>>) -> (r: Vec<String>)
    ensures
        ({
            let all = match headers {
                Some(h) => seq![row_view(h@)] + rows_view(data@),
                None => rows_view(data@),
            };
            let widths = Seq::new(max_cols(all) as nat, |i: int| col_width(all, i));
            &&& (all.len() == 0 ==> r@.len() == 0)
            &&& (all.len() > 0 && headers is Some ==> {
                &&& r@.len() == data@.len() + 2
                &&& r@[0]@ == format_row_spec(all[0], widths)
                &&& r@[1]@ == separator_spec(widths)
                &&& forall|i: int|
                    0 <= i < data@.len() ==> #[trigger] r@[i + 2]@ == format_row_spec(
                        rows_view(data@)[i],
                        widths,
                    )
            })
            &&& (all.len() > 0 && headers is None ==> {
                &&& r@.len() == data@.len()
                &&& forall|i: int|
                    0 <= i < data@.len() ==> #[trigger] r@[i]@ == format_row_spec(
                        rows_view(data@)[i],
                        widths,
                    )
            })
        }),
{
    let mut all_rows: Vec<Vec<String>> = Vec::new();
    match headers {
        Some(h) => {
            let hc: Vec<String> = h.clone();
            proof {
                lemma_clone_row_view(h@, hc@);
            }
            all_rows.push(hc);
        },
        None => {},
    }
    let mut k: usize = 0;
    while k < data.len()
        invariant
            k <= data@.len(),
            all_rows@.len() == k + (if headers is Some {
                1int
            } else {
                0int
            }),
            headers matches Some(h) ==> row_view(all_rows@[0]@) == row_view(h@),
            forall|j: int|
                0 <= j < k ==> row_view(all_rows@[j + (if headers is Some {
                    1int
                } else {
                    0int
                })]@) == #[trigger] rows_view(data@)[j],
        decreases data@.len() - k,
    {
        let rc: Vec<String> = data[k].clone();
        proof {
            lemma_clone_row_view(data@[k as int]@, rc@);
        }
        all_rows.push(rc);
        k = k + 1;
    }
    let ghost all = rows_view(all_rows@);
    proof {
        let expected = match headers {
            Some(h) => seq![row_view(h@)] + rows_view(data@),
            None => rows_view(data@),
        };
        assert(all =~= expected);
    }
    if all_rows.len() == 0 {
        let empty: Vec<String> = Vec::new();
        return empty;
    }
    let widths: Vec<usize> = column_widths(&all_rows);
    let ghost wview = widths_view(widths@);
    proof {
        assert(wview =~= Seq::new(max_cols(all) as nat, |i: int| col_width(all, i)));
        assert forall|j: int| 0 <= j < all.len() implies (#[trigger] all[j]).len()
            <= wview.len() by {
            lemma_max_cols_bound(all, j);
        }
    }
    let mut out: Vec<String> = Vec::new();
    let mut k2: usize = 0;
    if headers.is_some() {
        proof {
            assert(all[0].len() <= wview.len());
            assert(all[0] == row_view(all_rows@[0]@));
        }
        out.push(format_row(&all_rows[0], &widths));
        out.push(separator_line(&widths));
        k2 = 1;
    }
    let ghost base = out@.len();
    let ghost k0 = k2 as int;
    while k2 < all_rows.len()
        invariant
            k0 <= k2 <= all_rows@.len(),
            widths@.len() == max_cols(all),
            wview == widths_view(widths@),
            all == rows_view(all_rows@),
            out@.len() == base + k2 - k0,
            headers is Some ==> base == 2 && k0 == 1 && out@.len() >= 2 && out@[0]@
                == format_row_spec(all[0], wview) && out@[1]@ == separator_spec(wview),
            headers is None ==> base == 0 && k0 == 0,
            forall|j: int| 0 <= j < all.len() ==> (#[trigger] all[j]).len() <= wview.len(),
            forall|j: int|
                k0 <= j < k2 ==> (#[trigger] out@[base + j - k0])@ == format_row_spec(
                    all[j],
                    wview,
                ),
        decreases all_rows@.len() - k2,
    {
        proof {
            assert(all[k2 as int].len() <= wview.len());
            assert(all[k2 as int] == row_view(all_rows@[k2 as int]@));
        }
        out.push(format_row(&all_rows[k2], &widths));
        k2 = k2 + 1;
    }
    proof {
        let expected = match headers {
            Some(h) => seq![row_view(h@)] + rows_view(data@),
            None => rows_view(data@),
        };
        let ewidths = Seq::new(max_cols(expected) as nat, |i: int| col_width(expected, i));
        assert(ewidths =~= wview);
        match headers {
            Some(_) => {
                assert forall|i: int| 0 <= i < data@.len() implies #[trigger] out@[i + 2]@
                    == format_row_spec(rows_view(data@)[i], ewidths) by {
                    assert(all[i + 1] == rows_view(data@)[i]);
                    assert(out@[base + (i + 1) - k0]@ == format_row_spec(all[i + 1], wview));
                }
            },
            None => {
                assert forall|i: int| 0 <= i < data@.len() implies #[trigger] out@[i]@
                    == format_row_spec(rows_view(data@)[i], ewidths) by {
                    assert(out@[base + i - k0]@ == format_row_spec(all[i], wview));
                }
            },
        }
    }
    out
}

/// A cloned row of cells reads the same.
proof fn lemma_clone_row_view(orig: Seq<String>, cl: Seq<String>)
    requires
        cl.len() == orig.len(),
        forall|i| #![all_triggers] 0 <= i < orig.len() ==> vstd::pervasive::cloned::<String>(orig[i], cl[i]),
    ensures
        row_view(cl) == row_view(orig),
{
    assert forall|i: int| 0 <= i < cl.len() implies cl[i]@ == orig[i]@ by {
    }
    assert(row_view(cl) =~= row_view(orig));
}

/// No row is wider than the widest.
proof fn lemma_max_cols_bound(rows: Seq<Seq<Seq<char>>>, j: int)
    requires
        0 <= j < rows.len(),
    ensures
        rows[j].len() <= max_cols(rows),
    decreases rows.len(),
{
    if j < rows.len() - 1 {
        assert(rows.drop_last()[j] == rows[j]);
        lemma_max_cols_bound(rows.drop_last(), j);
    }
}

/// A row of optional cells with every absent cell replaced by `m`.
pub open spec fn subst_row(row: Seq<Option<String>>, m: Seq<char>) -> Seq<Seq<char>> {
    Seq::new(
        row.len(),
        |i: int|
            match row[i] {
                Some(s) => s@,
                None => m,
            },
    )
}

/// `k` copies of the missing-cell text (none for non-positive `k`).
pub open spec fn missing_fill(m: Seq<char>, k: int) -> Seq<Seq<char>> {
    if k <= 0 {
        Seq::<Seq<char>>::empty()
    } else {
        Seq::new(k as nat, |i: int| m)
    }
}

/// A row extended with copies of `m` up to `cols` cells.
pub open spec fn extend_row(row: Seq<Seq<char>>, cols: int, m: Seq<char>) -> Seq<Seq<char>> {
    row + missing_fill(m, cols - row.len())
}

/// Format rows of optional cells as a plain table: absent cells show the
/// `missing` text, rows shorter than the widest are filled with it, and
/// column widths are taken before that filling. Headers behave as in
/// `simple_tabulate`.
pub fn tabulate_with_missing(
    data: &Vec<Vec<Option<String>>>,
    headers: Option<&Vec<String>>,
    missing: &str,
) -> (r: Vec<String>)
    ensures
        ({
            let subbed = subbed_view(data@, missing@);
            let all = match headers {
                Some(h) => seq![row_view(h@)] + subbed,
                None => subbed,
            };
            let widths = Seq::new(max_cols(all) as nat, |i: int| col_width(all, i));
            &&& (all.len() == 0 ==> r@.len() == 0)
            &&& (all.len() > 0 && headers is Some ==> {
                &&& r@.len() == data@.len() + 2
                &&& r@[0]@ == format_row_spec(
                    extend_row(all[0], max_cols(all), missing@),
                    widths,
                )
                &&& r@[1]@ == separator_spec(widths)
                &&& forall|i: int|
                    0 <= i < data@.len() ==> #[trigger] r@[i + 2]@ == format_row_spec(
                        extend_row(subbed[i], max_cols(all), missing@),
                        widths,
                    )
            })
            &&& (all.len() > 0 && headers is None ==> {
                &&& r@.len() == data@.len()
                &&& forall|i: int|
                    0 <= i < data@.len() ==> #[trigger] r@[i]@ == format_row_spec(
                        extend_row(subbed[i], max_cols(all), missing@),
                        widths,
                    )
            })
        }),
{
    let ghost subbed = subbed_view(data@, missing@);
    let mut all_rows: Vec<Vec<String>> = Vec::new();
    match headers {
        Some(h) => {
            let hc: Vec<String> = h.clone();
            proof {
                lemma_clone_row_view(h@, hc@);
            }
            all_rows.push(hc);
        },
        None => {},
    }
    let mut k: usize = 0;
    while k < data.len()
        invariant
            k <= data@.len(),
            subbed == subbed_view(data@, missing@),
            all_rows@.len() == k + (if headers is Some {
                1int
            } else {
                0int
            }),
            headers matches Some(h) ==> row_view(all_rows@[0]@) == row_view(h@),
            forall|j: int|
                0 <= j < k ==> row_view(all_rows@[j + (if headers is Some {
                    1int
                } else {
                    0int
                })]@) == #[trigger] subbed[j],
        decreases data@.len() - k,
    {
        let src: &Vec<Option<String>> = &data[k];
        let mut row: Vec<String> = Vec::new();
        let mut c: usize = 0;
        while c < src.len()
            invariant
                c <= src@.len(),
                row@.len() == c,
                forall|j: int|
                    0 <= j < c ==> row@[j]@ == #[trigger] subst_row(src@, missing@)[j],
            decreases src@.len() - c,
        {
            match &src[c] {
                Some(s) => {
                    row.push(s.clone());
                },
                None => {
                    row.push(missing.to_owned());
                },
            }
            c = c + 1;
        }
        proof {
            assert(row_view(row@) =~= subst_row(data@[k as int]@, missing@));
        }
        all_rows.push(row);
        k = k + 1;
    }
    let ghost all = rows_view(all_rows@);
    proof {
        let expected = match headers {
            Some(h) => seq![row_view(h@)] + subbed,
            None => subbed,
        };
        assert(all =~= expected);
    }
    if all_rows.len() == 0 {
        let empty: Vec<String> = Vec::new();
        return empty;
    }
    let widths: Vec<usize> = column_widths(&all_rows);
    let ghost wview = widths_view(widths@);
    proof {
        assert(wview =~= Seq::new(max_cols(all) as nat, |i: int| col_width(all, i)));
    }
    let cols: usize = widths.len();
    // Fill short rows with the missing text; the widths are already fixed.
    let mut k3: usize = 0;
    while k3 < all_rows.len()
        invariant
            k3 <= all_rows@.len(),
            widths@.len() == max_cols(all),
            cols == widths@.len(),
            wview == widths_view(widths@),
            forall|j: int|
                k3 <= j < all_rows@.len() ==> #[trigger] rows_view(all_rows@)[j] == all[j],
            forall|j: int|
                0 <= j < k3 ==> #[trigger] rows_view(all_rows@)[j] == extend_row(
                    all[j],
                    max_cols(all),
                    missing@,
                ),
            all_rows@.len() == all.len(),
        decreases all_rows@.len() - k3,
    {
        proof {
            lemma_max_cols_bound(all, k3 as int);
        }
        let mut row: Vec<String> = all_rows[k3].clone();
        proof {
            lemma_clone_row_view(all_rows@[k3 as int]@, row@);
            assert(rows_view(all_rows@)[k3 as int] == all[k3 as int]);
        }
        let ghost before = row_view(row@);
        proof {
            assert(before == all[k3 as int]);
            assert(before.len() == row@.len());
            assert(before =~= before + missing_fill(missing@, 0));
        }
        while row.len() < cols
            invariant
                before.len() <= row@.len() <= cols,
                row_view(row@) == before + missing_fill(
                    missing@,
                    row@.len() - before.len(),
                ),
            decreases cols - row@.len(),
        {
            let ghost prev = row@;
            let m: String = missing.to_owned();
            proof {
                assert(m@ == missing@);
            }
            row.push(m);
            proof {
                let k = row@.len() - before.len();
                assert(row@ == prev.push(m));
                assert forall|j: int| 0 <= j < row@.len() implies row_view(row@)[j] == (before
                    + missing_fill(missing@, k))[j] by {
                    assert(row_view(row@)[j] == row@[j]@);
                    if j < prev.len() {
                        assert(row@[j] == prev[j]);
                        assert(row_view(prev)[j] == prev[j]@);
                        assert(row_view(prev)[j] == (before + missing_fill(missing@, k - 1))[j]);
                        if j >= before.len() {
                            assert(missing_fill(missing@, k - 1)[j - before.len()] == missing@);
                            assert(missing_fill(missing@, k)[j - before.len()] == missing@);
                        }
                    } else {
                        assert(row@[j] == m);
                        assert(missing_fill(missing@, k)[j - before.len()] == missing@);
                    }
                }
                assert(row_view(row@) =~= before + missing_fill(missing@, k));
            }
        }
        proof {
            assert(row@.len() == cols);
            assert(row_view(row@) =~= extend_row(
                all[k3 as int],
                max_cols(all),
                missing@,
            ));
        }
        let ghost prev = all_rows@;
        all_rows.set(k3, row);
        proof {
            assert forall|j: int| 0 <= j < all_rows@.len() && j != k3 implies #[trigger] rows_view(
                all_rows@,
            )[j] == rows_view(prev)[j] by {
                assert(all_rows@[j] == prev[j]);
            }
            assert(rows_view(all_rows@)[k3 as int] == row_view(row@));
        }
        k3 = k3 + 1;
    }
    let mut out: Vec<String> = Vec::new();
    let mut k2: usize = 0;
    if headers.is_some() {
        proof {
            lemma_max_cols_bound(all, 0);
            assert(rows_view(all_rows@)[0] == extend_row(all[0], max_cols(all), missing@));
            assert(extend_row(all[0], max_cols(all), missing@).len() == max_cols(all));
            assert(rows_view(all_rows@)[0] == row_view(all_rows@[0]@));
        }
        out.push(format_row(&all_rows[0], &widths));
        out.push(separator_line(&widths));
        k2 = 1;
    }
    let ghost base = out@.len();
    let ghost k0 = k2 as int;
    while k2 < all_rows.len()
        invariant
            k0 <= k2 <= all_rows@.len(),
            all_rows@.len() == all.len(),
            widths@.len() == max_cols(all),
            wview == widths_view(widths@),
            forall|j: int|
                0 <= j < all.len() ==> #[trigger] rows_view(all_rows@)[j] == extend_row(
                    all[j],
                    max_cols(all),
                    missing@,
                ),
            out@.len() == base + k2 - k0,
            headers is Some ==> base == 2 && k0 == 1 && out@.len() >= 2 && out@[0]@
                == format_row_spec(extend_row(all[0], max_cols(all), missing@), wview) && out@[1]@
                == separator_spec(wview),
            headers is None ==> base == 0 && k0 == 0,
            forall|j: int|
                k0 <= j < k2 ==> (#[trigger] out@[base + j - k0])@ == format_row_spec(
                    extend_row(all[j], max_cols(all), missing@),
                    wview,
                ),
        decreases all_rows@.len() - k2,
    {
        proof {
            lemma_max_cols_bound(all, k2 as int);
            assert(rows_view(all_rows@)[k2 as int] == extend_row(
                all[k2 as int],
                max_cols(all),
                missing@,
            ));
            assert(extend_row(all[k2 as int], max_cols(all), missing@).len() == max_cols(all));
            assert(rows_view(all_rows@)[k2 as int] == row_view(all_rows@[k2 as int]@));
        }
        out.push(format_row(&all_rows[k2], &widths));
        k2 = k2 + 1;
    }
    proof {
        let expected = match headers {
            Some(h) => seq![row_view(h@)] + subbed,
            None => subbed,
        };
        let ewidths = Seq::new(max_cols(expected) as nat, |i: int| col_width(expected, i));
        assert(ewidths =~= wview);
        match headers {
            Some(_) => {
                assert forall|i: int| 0 <= i < data@.len() implies #[trigger] out@[i + 2]@
                    == format_row_spec(
                    extend_row(subbed[i], max_cols(expected), missing@),
                    ewidths,
                ) by {
                    assert(all[i + 1] == subbed[i]);
                    assert(out@[base + (i + 1) - k0]@ == format_row_spec(
                        extend_row(all[i + 1], max_cols(all), missing@),
                        wview,
                    ));
                }
            },
            None => {
                assert forall|i: int| 0 <= i < data@.len() implies #[trigger] out@[i]@
                    == format_row_spec(
                    extend_row(subbed[i], max_cols(expected), missing@),
                    ewidths,
                ) by {
                    assert(out@[base + i - k0]@ == format_row_spec(
                        extend_row(all[i], max_cols(all), missing@),
                        wview,
                    ));
                }
            },
        }
    }
    out
}

} // verus!

use vstd::prelude::*;

use crate::dict::{build, DictHandler, Entries};
use crate::error::ParseError;
use crate::properties::{columns_view, lemma_widths_prefix, widths_sum, Column, ColumnType, SColumn};
use crate::scalar::{bool_literal, float_literal, int_literal, is_bool_lit, is_int_lit};
use crate::shape::{all_int, bools_of, ints_of, is_number_lit, split_words, to_bools, to_ints, words};
use crate::value::{SValue, Value, texts_view, text_rows_view, ints_view, int_rows_view, bool_rows_view};

verus! {

/// A field reads as its column's declared type: any text for `S`, a number
/// for `R`, an integer for `I`, a boolean literal for `L`.
pub open spec fn cell_ok(k: ColumnType, w: Seq<u8>) -> bool {
    match k {
        ColumnType::Str => true,
        ColumnType::Real => is_number_lit(w),
        ColumnType::Int => is_int_lit(w),
        ColumnType::Logical => is_bool_lit(w),
    }
}

/// The fields of one column: `w` fields from offset `o` of each row.
pub open spec fn column_cells(table: Seq<Seq<Seq<u8>>>, o: int, w: int) -> Seq<Seq<Seq<u8>>> {
    table.map_values(|row: Seq<Seq<u8>>| row.subrange(o, o + w))
}

/// The first field of each row.
pub open spec fn firsts(cells: Seq<Seq<Seq<u8>>>) -> Seq<Seq<u8>> {
    cells.map_values(|c: Seq<Seq<u8>>| c[0])
}

/// The value of a column: an array where it is one field wide, a matrix with
/// one row per atom otherwise.
pub open spec fn column_value(k: ColumnType, w: int, cells: Seq<Seq<Seq<u8>>>) -> SValue {
    if w == 1 {
        match k {
            ColumnType::Str => SValue::StrArray(firsts(cells)),
            ColumnType::Real => SValue::FloatArray(firsts(cells)),
            ColumnType::Int => SValue::IntArray(ints_of(firsts(cells))),
            ColumnType::Logical => SValue::BoolArray(bools_of(firsts(cells))),
        }
    } else {
        match k {
            ColumnType::Str => SValue::MatrixStr(cells),
            ColumnType::Real => SValue::MatrixFloat(cells),
            ColumnType::Int => SValue::MatrixInt(cells.map_values(|r: Seq<Seq<u8>>| ints_of(r))),
            ColumnType::Logical => SValue::MatrixBool(
                cells.map_values(|r: Seq<Seq<u8>>| bools_of(r)),
            ),
        }
    }
}

/// Tells whether a field reads as the type `k`.
pub fn cell_check(k: ColumnType, w: &Vec<u8>) -> (r: bool)
    ensures
        r == cell_ok(k, w@),
{
    match k {
        ColumnType::Str => true,
        ColumnType::Real => int_literal(w.as_slice()).is_some() || float_literal(w.as_slice()),
        ColumnType::Int => int_literal(w.as_slice()).is_some(),
        ColumnType::Logical => bool_literal(w.as_slice()).is_some(),
    }
}

/// Reads one column of `w` fields at offset `o` of each row, typed as `k`.
/// Fails with the row and the place within the column of a field that does
/// not read as `k`.
pub fn read_column(table: &Vec<Vec<Vec<u8>>>, o: usize, w: usize, k: ColumnType) -> (r: Result<
    Value,
    (usize, usize),
>)
    requires
        w >= 1,
        forall|q: int| 0 <= q < table.len() ==> o + w <= (#[trigger] table@[q])@.len(),
    ensures
        match r {
            Ok(v) => {
                &&& forall|q: int, j: int|
                    0 <= q < table.len() && 0 <= j < w ==> cell_ok(
                        k,
                        #[trigger] text_rows_view(*table)[q][o + j],
                    )
                &&& v@ == column_value(k, w as int, column_cells(text_rows_view(*table), o as int, w as int))
            },
            Err((q, j)) => q < table.len() && j < w && !cell_ok(k, text_rows_view(*table)[q as int][o + j]),
        },
{
    let ghost tv = text_rows_view(*table);
    let ghost cv = column_cells(tv, o as int, w as int);
    let mut cells: Vec<Vec<Vec<u8>>> = Vec::new();
    let mut q: usize = 0;
    while q < table.len()
        invariant
            tv == text_rows_view(*table),
            cv == column_cells(tv, o as int, w as int),
            w >= 1,
            forall|p: int| 0 <= p < table.len() ==> o + w <= (#[trigger] table@[p])@.len(),
            q <= table.len(),
            text_rows_view(cells) =~= cv.take(q as int),
            forall|p: int, j: int| 0 <= p < q && 0 <= j < w ==> cell_ok(k, #[trigger] tv[p][o + j]),
        decreases table.len() - q,
    {
        let row = &table[q];
        assert(tv[q as int] == texts_view(*row));
        let mut part: Vec<Vec<u8>> = Vec::new();
        let mut j: usize = 0;
        while j < w
            invariant
                tv == text_rows_view(*table),
                q < table.len(),
                row == table@[q as int],
                tv[q as int] == texts_view(*row),
                o + w <= row.len(),
                j <= w,
                texts_view(part) =~= tv[q as int].subrange(o as int, o + j),
                forall|i: int| 0 <= i < j ==> cell_ok(k, #[trigger] tv[q as int][o + i]),
            decreases w - j,
        {
            let cell = &row[o + j];
            assert(tv[q as int][o + j] == cell@);
            if !cell_check(k, cell) {
                return Err((q, j));
            }
            let ghost before = texts_view(part);
            part.push(cell.clone());
            assert(texts_view(part) =~= before.push(cell@));
            j = j + 1;
        }
        let ghost before = text_rows_view(cells);
        let ghost pv = texts_view(part);
        cells.push(part);
        assert(text_rows_view(cells) =~= before.push(pv));
        assert(forall|p: int, i: int| 0 <= p <= q && 0 <= i < w ==> cell_ok(k, #[trigger] tv[p][o + i]));
        q = q + 1;
    }
    assert(cv.take(table.len() as int) =~= cv);
    let ghost cw = text_rows_view(cells);
    assert(cw == cv);
    assert(forall|p: int, i: int| 0 <= p < cv.len() && 0 <= i < w ==> #[trigger] cv[p][i] == tv[p][o + i]);
    if w == 1 {
        let mut first: Vec<Vec<u8>> = Vec::new();
        let mut p: usize = 0;
        while p < cells.len()
            invariant
                cw == text_rows_view(cells),
                forall|a: int| 0 <= a < cells.len() ==> (#[trigger] cw[a]).len() == 1,
                p <= cells.len(),
                texts_view(first) =~= firsts(cw).take(p as int),
            decreases cells.len() - p,
        {
            assert(cw[p as int] == texts_view(cells[p as int]));
            let ghost before = texts_view(first);
            let c = cells[p][0].clone();
            first.push(c);
            assert(texts_view(first) =~= before.push(cw[p as int][0]));
            p = p + 1;
        }
        assert(firsts(cw).take(cells.len() as int) =~= firsts(cw));
        let ghost fv = firsts(cw);
        assert(forall|a: int| 0 <= a < fv.len() ==> #[trigger] fv[a] == tv[a][o as int]);
        match k {
            ColumnType::Str => Ok(Value::StrArray(first)),
            ColumnType::Real => Ok(Value::FloatArray(first)),
            ColumnType::Int => {
                assert(all_int(fv)) by {
                    assert forall|a: int| 0 <= a < fv.len() implies is_int_lit(#[trigger] fv[a]) by {
                        assert(cell_ok(k, tv[a][o + 0]));
                    }
                }
                Ok(Value::IntArray(to_ints(&first)))
            },
            ColumnType::Logical => Ok(Value::BoolArray(to_bools(&first))),
        }
    } else {
        match k {
            ColumnType::Str => Ok(Value::MatrixStr(cells)),
            ColumnType::Real => Ok(Value::MatrixFloat(cells)),
            ColumnType::Int => {
                let mut out: Vec<Vec<i32>> = Vec::new();
                let mut p: usize = 0;
                while p < cells.len()
                    invariant
                        cw == text_rows_view(cells),
                        k == ColumnType::Int,
                        forall|a: int, i: int| 0 <= a < cw.len() && 0 <= i < cw[a].len() ==> cell_ok(k, #[trigger] cw[a][i]),
                        p <= cells.len(),
                        int_rows_view(out) =~= cw.map_values(|r: Seq<Seq<u8>>| ints_of(r)).take(p as int),
                    decreases cells.len() - p,
                {
                    assert(cw[p as int] == texts_view(cells[p as int]));
                    assert(all_int(cw[p as int])) by {
                        assert forall|i: int| 0 <= i < cw[p as int].len() implies is_int_lit(#[trigger] cw[p as int][i]) by {
                            assert(cell_ok(k, cw[p as int][i]));
                        }
                    }
                    let row = to_ints(&cells[p]);
                    let ghost before = int_rows_view(out);
                    let ghost rv = ints_view(row);
                    out.push(row);
                    assert(int_rows_view(out) =~= before.push(rv));
                    p = p + 1;
                }
                assert(int_rows_view(out) =~= cw.map_values(|r: Seq<Seq<u8>>| ints_of(r)));
                Ok(Value::MatrixInt(out))
            },
            ColumnType::Logical => {
                let mut out: Vec<Vec<bool>> = Vec::new();
                let mut p: usize = 0;
                while p < cells.len()
                    invariant
                        cw == text_rows_view(cells),
                        p <= cells.len(),
                        bool_rows_view(out) =~= cw.map_values(|r: Seq<Seq<u8>>| bools_of(r)).take(p as int),
                    decreases cells.len() - p,
                {
                    let row = to_bools(&cells[p]);
                    let ghost before = bool_rows_view(out);
                    let ghost rv = row@;
                    out.push(row);
                    assert(bool_rows_view(out) =~= before.push(rv));
                    p = p + 1;
                }
                assert(bool_rows_view(out) =~= cw.map_values(|r: Seq<Seq<u8>>| bools_of(r)));
                Ok(Value::MatrixBool(out))
            },
        }
    }
}

/// What is wrong with atom row `r` (the line after the comment counting as
/// row 0): it is missing, or has other than `total` fields.
pub open spec fn row_problem(ls: Seq<Seq<u8>>, total: int, n: int, r: int) -> Option<ParseError> {
    if 2 + r >= ls.len() {
        Some(ParseError::RowCountMismatch { expected: n as usize, actual: r as usize })
    } else if words(ls[2 + r]).len() != total {
        Some(
            ParseError::RowFieldCountMismatch {
                row: r as usize,
                expected: total as usize,
                actual: words(ls[2 + r]).len() as usize,
            },
        )
    } else {
        None
    }
}

/// `r` is the first of the `n` atom rows that has a problem.
pub open spec fn first_row_problem(ls: Seq<Seq<u8>>, total: int, n: int, r: int) -> bool {
    0 <= r < n && row_problem(ls, total, n, r) is Some && forall|q: int|
        0 <= q < r ==> (#[trigger] row_problem(ls, total, n, q)) is None
}

/// The fields of each of the `n` atom rows.
pub open spec fn table(ls: Seq<Seq<u8>>, n: int) -> Seq<Seq<Seq<u8>>> {
    Seq::new(n as nat, |r: int| words(ls[2 + r]))
}

/// Where column `c`'s fields start in a row.
pub open spec fn col_offset(cols: Seq<SColumn>, c: int) -> int {
    widths_sum(cols.take(c))
}

/// Field `j` of column `c` in row `r` does not read as the column's type.
pub open spec fn bad_cell(cols: Seq<SColumn>, t: Seq<Seq<Seq<u8>>>, r: int, c: int, j: int) -> bool {
    &&& 0 <= r < t.len()
    &&& 0 <= c < cols.len()
    &&& 0 <= j < cols[c].2
    &&& !cell_ok(cols[c].1, t[r][col_offset(cols, c) + j])
}

/// Each column's name with its value, in the descriptor's order.
pub open spec fn array_pairs(cols: Seq<SColumn>, t: Seq<Seq<Seq<u8>>>) -> Entries {
    Seq::new(
        cols.len(),
        |c: int|
            (
                cols[c].0,
                column_value(cols[c].1, cols[c].2, column_cells(t, col_offset(cols, c), cols[c].2)),
            ),
    )
}

/// The outcome of reading `n` atom rows from the lines `ls` (rows start at
/// line 2) under the columns `cols`: first each row must be there with the
/// right number of fields, then each field must read as its column's type.
pub open spec fn rows_ok(ls: Seq<Seq<u8>>, cols: Seq<SColumn>, n: int) -> bool {
    &&& forall|r: int| 0 <= r < n ==> (#[trigger] row_problem(ls, widths_sum(cols), n, r)) is None
    &&& !exists|r: int, c: int, j: int| bad_cell(cols, table(ls, n), r, c, j)
}

/// Field `field` of row `row` belongs to a column whose type it does not read as.
pub open spec fn type_error_at(cols: Seq<SColumn>, t: Seq<Seq<Seq<u8>>>, row: int, field: int) -> bool {
    exists|c: int, j: int| #[trigger] bad_cell(cols, t, row, c, j) && field == col_offset(cols, c) + j
}

/// The error that reading the rows reports: that of the first row with a
/// problem, else a field that does not read as its column's type.
pub open spec fn rows_error(ls: Seq<Seq<u8>>, cols: Seq<SColumn>, n: int, e: ParseError) -> bool {
    if exists|r: int| first_row_problem(ls, widths_sum(cols), n, r) {
        Some(e) == row_problem(
            ls,
            widths_sum(cols),
            n,
            choose|r: int| first_row_problem(ls, widths_sum(cols), n, r),
        )
    } else {
        match e {
            ParseError::TypeCoercionError { row, field } => type_error_at(
                cols,
                table(ls, n),
                row as int,
                field as int,
            ),
            _ => false,
        }
    }
}

/// Reads `n` atom rows from line 2 of `ls` on into one dictionary entry per
/// column.
pub fn read_rows(ls: &Vec<Vec<u8>>, cols: &Vec<Column>, n: usize) -> (res: Result<DictHandler, ParseError>)
    requires
        ls.len() >= 2,
        widths_sum(columns_view(*cols)) <= usize::MAX,
        forall|c: int| 0 <= c < cols.len() ==> (#[trigger] columns_view(*cols)[c]).2 > 0,
    ensures
        match res {
            Ok(d) => rows_ok(texts_view(*ls), columns_view(*cols), n as int)
                && d@ == build(array_pairs(columns_view(*cols), table(texts_view(*ls), n as int))),
            Err(e) => !rows_ok(texts_view(*ls), columns_view(*cols), n as int) && rows_error(
                texts_view(*ls),
                columns_view(*cols),
                n as int,
                e,
            ),
        },
{
    let ghost lv = texts_view(*ls);
    let ghost cv = columns_view(*cols);
    let ghost total_i = widths_sum(cv);
    let mut total: usize = 0;
    let mut c: usize = 0;
    while c < cols.len()
        invariant
            cv == columns_view(*cols),
            total_i == widths_sum(cv),
            total_i <= usize::MAX,
            forall|k: int| 0 <= k < cols.len() ==> (#[trigger] cv[k]).2 > 0,
            c <= cols.len(),
            total == widths_sum(cv.take(c as int)),
        decreases cols.len() - c,
    {
        assert(cv.take(c + 1).drop_last() =~= cv.take(c as int));
        assert(cv.take(c + 1).last() == cv[c as int]);
        proof {
            lemma_widths_prefix(cv, c + 1);
        }
        total = total + cols[c].width;
        c = c + 1;
    }
    assert(cv.take(cols.len() as int) =~= cv);
    let ghost tab = table(lv, n as int);
    let mut rows: Vec<Vec<Vec<u8>>> = Vec::new();
    let mut r: usize = 0;
    while r < n
        invariant
            lv == texts_view(*ls),
            ls.len() >= 2,
            cv == columns_view(*cols),
            total_i == widths_sum(cv),
            total == total_i,
            tab == table(lv, n as int),
            r <= n,
            text_rows_view(rows) =~= tab.take(r as int),
            forall|q: int| 0 <= q < r ==> (#[trigger] row_problem(lv, total_i, n as int, q)) is None,
        decreases n - r,
    {
        if r >= ls.len() - 2 {
            proof {
                assert(row_problem(lv, total_i, n as int, r as int) is Some);
                assert(first_row_problem(lv, total_i, n as int, r as int));
                let ch = choose|q: int| first_row_problem(lv, total_i, n as int, q);
                if ch < r {
                    assert(row_problem(lv, total_i, n as int, ch) is None);
                } else if ch > r {
                    assert(row_problem(lv, total_i, n as int, r as int) is Some);
                }
            }
            return Err(ParseError::RowCountMismatch { expected: n, actual: r });
        }
        let ws = split_words(ls[r + 2].as_slice());
        assert(lv[r + 2] == ls[r + 2]@);
        if ws.len() != total {
            proof {
                assert(row_problem(lv, total_i, n as int, r as int) is Some);
                assert(first_row_problem(lv, total_i, n as int, r as int));
                let ch = choose|q: int| first_row_problem(lv, total_i, n as int, q);
                if ch < r {
                    assert(row_problem(lv, total_i, n as int, ch) is None);
                } else if ch > r {
                    assert(row_problem(lv, total_i, n as int, r as int) is Some);
                }
            }
            return Err(ParseError::RowFieldCountMismatch { row: r, expected: total, actual: ws.len() });
        }
        let ghost before = text_rows_view(rows);
        let ghost wv = texts_view(ws);
        rows.push(ws);
        assert(text_rows_view(rows) =~= before.push(wv));
        r = r + 1;
    }
    assert(tab.take(n as int) =~= tab);
    let ghost tv = text_rows_view(rows);
    assert(tv == tab);
    assert(!exists|q: int| first_row_problem(lv, total_i, n as int, q));
    assert forall|q: int| 0 <= q < n implies (#[trigger] tab[q]).len() == total_i by {
        assert(row_problem(lv, total_i, n as int, q) is None);
    }
    let mut d = DictHandler::new();
    let mut o: usize = 0;
    let mut c: usize = 0;
    assert(array_pairs(cv, tab).take(0) =~= Seq::<(Seq<u8>, SValue)>::empty());
    while c < cols.len()
        invariant
            cv == columns_view(*cols),
            total_i == widths_sum(cv),
            total == total_i,
            total_i <= usize::MAX,
            forall|k: int| 0 <= k < cols.len() ==> (#[trigger] cv[k]).2 > 0,
            tv == text_rows_view(rows),
            tv == tab,
            tab == table(lv, n as int),
            tab.len() == n,
            lv == texts_view(*ls),
            !exists|q: int| first_row_problem(lv, total_i, n as int, q),
            forall|q: int| 0 <= q < n ==> (#[trigger] row_problem(lv, total_i, n as int, q)) is None,
            forall|q: int| 0 <= q < n ==> (#[trigger] tab[q]).len() == total_i,
            c <= cols.len(),
            o == col_offset(cv, c as int),
            forall|r: int, k: int, j: int| 0 <= k < c ==> !#[trigger] bad_cell(cv, tab, r, k, j),
            d@ == build(array_pairs(cv, tab).take(c as int)),
        decreases cols.len() - c,
    {
        assert(cv.take(c + 1).drop_last() =~= cv.take(c as int));
        assert(cv.take(c + 1).last() == cv[c as int]);
        proof {
            lemma_widths_prefix(cv, c + 1);
        }
        let w = cols[c].width;
        assert(forall|q: int| 0 <= q < rows.len() ==> o + w <= (#[trigger] rows@[q])@.len()) by {
            assert forall|q: int| 0 <= q < rows.len() implies o + w <= (#[trigger] rows@[q])@.len() by {
                assert(tv[q] == texts_view(rows@[q]));
            }
        }
        match read_column(&rows, o, w, cols[c].kind) {
            Err((q, j)) => {
                proof {
                    assert(bad_cell(cv, tab, q as int, c as int, j as int));
                    assert(exists|r: int, k: int, i: int| bad_cell(cv, tab, r, k, i));
                    assert(!rows_ok(lv, cv, n as int));
                    assert(exists|k: int, i: int| bad_cell(cv, tab, q as int, k, i)
                        && (o + j) as int == col_offset(cv, k) + i);
                }
                let e = ParseError::TypeCoercionError { row: q, field: o + j };
                assert(!exists|r: int| first_row_problem(lv, widths_sum(cv), n as int, r));
                assert(table(lv, n as int) == tab);
                assert(bad_cell(cv, table(lv, n as int), q as int, c as int, j as int));
                assert((o + j) as int == col_offset(cv, c as int) + j);
                assert(type_error_at(cv, table(lv, n as int), q as int, (o + j) as int));
                assert(rows_error(lv, cv, n as int, e));
                return Err(e);
            },
            Ok(v) => {
                proof {
                    let ap = array_pairs(cv, tab);
                    assert(ap.take(c + 1).drop_last() =~= ap.take(c as int));
                    assert(ap.take(c + 1).last() == ap[c as int]);
                    assert forall|r: int, k: int, j: int| 0 <= k < c + 1 implies !#[trigger] bad_cell(cv, tab, r, k, j) by {
                        if k == c && bad_cell(cv, tab, r, k, j) {
                            assert(cell_ok(cols[c as int].kind, tv[r][o + j]));
                        }
                    }
                }
                d.insert(cols[c].name.clone(), v);
                o = o + w;
                c = c + 1;
            },
        }
    }
    assert(array_pairs(cv, tab).take(cols.len() as int) =~= array_pairs(cv, tab));
    Ok(d)
}

} // verus!

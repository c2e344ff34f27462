use vstd::prelude::*;

use crate::dict::{last_value, lemma_last_write_wins, lookup, Entries};
use crate::error::ParseError;
use crate::info::{comment_info, pairs_from, typed};
use crate::lexer::tokens;
use crate::properties::{widths_sum, SColumn};
use crate::read::reads_as;
use crate::rows::{first_row_problem, row_problem, rows_error, rows_ok};
use crate::shape::{has_byte, matrix_rows, quoted_value, words};
use crate::value::SValue;

verus! {

/// The `key=value` pairs of a comment line with their typed values, in the
/// order written.
pub open spec fn comment_pairs(s: Seq<u8>) -> Entries {
    typed(pairs_from(tokens(s)->Ok_0, 0, s.len() as int)->Ok_0)
}

/// Reading a comment line twice gives the same dictionary.
pub proof fn lemma_comment_deterministic(s: Seq<u8>, d1: Entries, d2: Entries)
    requires
        comment_info(s) == Ok::<Entries, ParseError>(d1),
        comment_info(s) == Ok::<Entries, ParseError>(d2),
    ensures
        d1 == d2,
{
}

/// Reading a well-formed configuration twice gives the same count, the same
/// dictionaries and the same comment line.
pub proof fn lemma_read_deterministic(
    s: Seq<u8>,
    a: (int, Entries, Entries, Seq<u8>),
    b: (int, Entries, Entries, Seq<u8>),
)
    requires
        reads_as(s, Ok(a)),
        reads_as(s, Ok(b)),
    ensures
        a == b,
{
}

/// A quoted matrix literal whose rows have unequal widths has no value: the
/// comment line fails on it rather than padding or cutting a row.
pub proof fn lemma_ragged_matrix_fails(s: Seq<u8>, r1: int, r2: int)
    requires
        has_byte(s, 47u8),
        0 <= r1 < matrix_rows(s).len(),
        0 <= r2 < matrix_rows(s).len(),
        matrix_rows(s)[r1].len() != matrix_rows(s)[r2].len(),
    ensures
        quoted_value(s) is None,
{
}

/// In the dictionary of a comment line, each key holds the value of its last
/// occurrence on the line.
pub proof fn lemma_comment_last_write_wins(s: Seq<u8>, d: Entries, k: Seq<u8>)
    requires
        comment_info(s) == Ok::<Entries, ParseError>(d),
    ensures
        lookup(d, k) == last_value(comment_pairs(s), k),
{
    lemma_last_write_wins(comment_pairs(s), k);
}

/// A key given twice, with no later occurrence, maps to its second value.
pub proof fn lemma_duplicate_key_second_wins(
    p: Entries,
    k: Seq<u8>,
    v1: SValue,
    q: Entries,
    v2: SValue,
    r: Entries,
)
    requires
        forall|i: int| 0 <= i < r.len() ==> (#[trigger] r[i]).0 != k,
    ensures
        last_value(p + seq![(k, v1)] + q + seq![(k, v2)] + r, k) == Some(v2),
    decreases r.len(),
{
    let all = p + seq![(k, v1)] + q + seq![(k, v2)] + r;
    if r.len() == 0 {
        assert(all.last() == (k, v2));
    } else {
        let r2 = r.drop_last();
        assert(all.drop_last() =~= p + seq![(k, v1)] + q + seq![(k, v2)] + r2);
        assert(all.last() == r[r.len() - 1]);
        assert forall|i: int| 0 <= i < r2.len() implies (#[trigger] r2[i]).0 != k by {
            assert(r2[i] == r[i]);
        }
        lemma_duplicate_key_second_wins(p, k, v1, q, v2, r2);
    }
}

/// Where every earlier atom row is fine and row `r` has other than the
/// columns' total width of fields, reading fails with a field-count error
/// that names row `r`.
pub proof fn lemma_field_count_mismatch(ls: Seq<Seq<u8>>, cols: Seq<SColumn>, n: int, r: int, e: ParseError)
    requires
        0 <= r < n,
        2 + r < ls.len(),
        words(ls[2 + r]).len() != widths_sum(cols),
        forall|q: int| 0 <= q < r ==> (#[trigger] row_problem(ls, widths_sum(cols), n, q)) is None,
        rows_error(ls, cols, n, e),
    ensures
        !rows_ok(ls, cols, n),
        e == (ParseError::RowFieldCountMismatch {
            row: r as usize,
            expected: widths_sum(cols) as usize,
            actual: words(ls[2 + r]).len() as usize,
        }),
{
    assert(first_row_problem(ls, widths_sum(cols), n, r));
    let c = choose|q: int| first_row_problem(ls, widths_sum(cols), n, q);
    if c < r {
        assert(row_problem(ls, widths_sum(cols), n, c) is None);
    } else if c > r {
        assert(row_problem(ls, widths_sum(cols), n, r) is Some);
    }
    assert(row_problem(ls, widths_sum(cols), n, r) is Some);
}

} // verus!

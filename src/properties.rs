use vstd::prelude::*;

use crate::scalar::{int_literal, int_text_value, is_int_lit};
use crate::shape::{pieces, split_pieces};
use crate::value::texts_view;

verus! {

/// The declared type of a per-atom column: `S`, `R`, `I` or `L`.
#[derive(Debug, Clone, Copy, PartialEq, Eq, Structural)]
pub enum ColumnType {
    Str,
    Real,
    Int,
    Logical,
}

/// One `name:type:width` triplet of a `Properties` descriptor.
#[derive(Debug)]
pub struct Column {
    pub name: Vec<u8>,
    pub kind: ColumnType,
    pub width: usize,
}

/// The model of a `Column`: name, type and width.
pub type SColumn = (Seq<u8>, ColumnType, int);

impl View for Column {
    type V = SColumn;

    open spec fn view(&self) -> SColumn {
        (self.name@, self.kind, self.width as int)
    }
}

/// The model of a list of columns.
pub open spec fn columns_view(v: Vec<Column>) -> Seq<SColumn> {
    v@.map_values(|c: Column| c@)
}

/// The type that a one-letter code names.
pub open spec fn code_kind(t: Seq<u8>) -> Option<ColumnType> {
    if t == seq![83u8] {
        Some(ColumnType::Str)
    } else if t == seq![82u8] {
        Some(ColumnType::Real)
    } else if t == seq![73u8] {
        Some(ColumnType::Int)
    } else if t == seq![76u8] {
        Some(ColumnType::Logical)
    } else {
        None
    }
}

/// Triplet `m` of the pieces has a name, a known type code and a positive
/// width.
pub open spec fn triple_ok(ps: Seq<Seq<u8>>, m: int) -> bool {
    &&& ps[3 * m].len() > 0
    &&& code_kind(ps[3 * m + 1]) is Some
    &&& is_int_lit(ps[3 * m + 2])
    &&& int_text_value(ps[3 * m + 2]) > 0
}

/// The total width of the columns: how many fields each atom row holds.
pub open spec fn widths_sum(cols: Seq<SColumn>) -> int
    decreases cols.len(),
{
    if cols.len() == 0 {
        0
    } else {
        widths_sum(cols.drop_last()) + cols.last().2
    }
}

/// The columns that the pieces name, three pieces to a column.
pub open spec fn triples(ps: Seq<Seq<u8>>) -> Seq<SColumn> {
    Seq::new(
        (ps.len() / 3) as nat,
        |m: int| (ps[3 * m], code_kind(ps[3 * m + 1])->0, int_text_value(ps[3 * m + 2])),
    )
}

/// The columns that a `Properties` value declares: `name:type:width` triplets
/// joined by `:`. `None` where it is malformed, or where a row would need more
/// fields than a `usize` counts.
pub open spec fn descriptor(s: Seq<u8>) -> Option<Seq<SColumn>> {
    let ps = pieces(s, 58u8);
    if ps.len() % 3 == 0 && (forall|m: int| 0 <= m < ps.len() / 3 ==> #[trigger] triple_ok(ps, m))
        && widths_sum(triples(ps)) <= usize::MAX {
        Some(triples(ps))
    } else {
        None
    }
}

/// The descriptor used where a comment line gives none: `species:S:1:pos:R:3`.
pub open spec fn default_properties() -> Seq<u8> {
    seq![115u8, 112u8, 101u8, 99u8, 105u8, 101u8, 115u8, 58u8, 83u8, 58u8, 49u8, 58u8, 112u8, 111u8, 115u8, 58u8, 82u8, 58u8, 51u8]
}

/// The default descriptor, `species:S:1:pos:R:3`.
pub fn default_properties_text() -> (r: Vec<u8>)
    ensures
        r@ == default_properties(),
{
    let r: Vec<u8> = vec![115u8, 112u8, 101u8, 99u8, 105u8, 101u8, 115u8, 58u8, 83u8, 58u8, 49u8, 58u8, 112u8, 111u8, 115u8, 58u8, 82u8, 58u8, 51u8];
    assert(r@ =~= default_properties());
    r
}

/// With positive widths, the first columns are never wider than all of them.
pub proof fn lemma_widths_prefix(cols: Seq<SColumn>, m: int)
    requires
        0 <= m <= cols.len(),
        forall|c: int| 0 <= c < cols.len() ==> (#[trigger] cols[c]).2 > 0,
    ensures
        widths_sum(cols.take(m)) <= widths_sum(cols),
        widths_sum(cols.take(m)) >= 0,
    decreases cols.len(),
{
    if cols.len() > 0 {
        let t = cols.drop_last();
        if m == cols.len() {
            assert(cols.take(m) =~= cols);
            lemma_widths_prefix(t, t.len() as int);
            assert(t.take(t.len() as int) =~= t);
        } else {
            lemma_widths_prefix(t, m);
            lemma_widths_prefix(t, t.len() as int);
            assert(t.take(m) =~= cols.take(m));
            assert(t.take(t.len() as int) =~= t);
        }
    }
}

fn type_code(t: &Vec<u8>) -> (r: Option<ColumnType>)
    ensures
        r == code_kind(t@),
{
    if t.len() != 1 {
        assert(t@ != seq![83u8] && t@ != seq![82u8] && t@ != seq![73u8] && t@ != seq![76u8]);
        return None;
    }
    let c = t[0];
    assert(t@ =~= seq![c]);
    if c == 83u8 {
        Some(ColumnType::Str)
    } else if c == 82u8 {
        Some(ColumnType::Real)
    } else if c == 73u8 {
        Some(ColumnType::Int)
    } else if c == 76u8 {
        Some(ColumnType::Logical)
    } else {
        None
    }
}

/// Reads a `Properties` descriptor.
pub fn parse_properties(s: &[u8]) -> (r: Option<Vec<Column>>)
    ensures
        match r {
            Some(cols) => {
                &&& descriptor(s@) == Some(columns_view(cols))
                &&& widths_sum(columns_view(cols)) <= usize::MAX
                &&& forall|c: int| 0 <= c < cols.len() ==> (#[trigger] columns_view(cols)[c]).2 > 0
            },
            None => descriptor(s@) is None,
        },
{
    let ps = split_pieces(s, 58u8);
    let ghost pv = texts_view(ps);
    if ps.len() % 3 != 0 {
        return None;
    }
    let n = ps.len() / 3;
    let mut cols: Vec<Column> = Vec::new();
    let mut m: usize = 0;
    while m < n
        invariant
            pv == texts_view(ps),
            pv == pieces(s@, 58u8),
            n == pv.len() / 3,
            pv.len() % 3 == 0,
            m <= n,
            forall|j: int| 0 <= j < m ==> #[trigger] triple_ok(pv, j),
            columns_view(cols) =~= triples(pv).take(m as int),
        decreases n - m,
    {
        assert(pv[3 * m as int] == ps[3 * m as int]@);
        assert(pv[3 * m + 1] == ps[3 * m + 1]@);
        assert(pv[3 * m + 2] == ps[3 * m + 2]@);
        let kind = match type_code(&ps[3 * m + 1]) {
            Some(k) => k,
            None => {
                assert(!triple_ok(pv, m as int));
                return None;
            },
        };
        let width = match int_literal(ps[3 * m + 2].as_slice()) {
            Some(w) => w,
            None => {
                assert(!triple_ok(pv, m as int));
                return None;
            },
        };
        if width <= 0 || ps[3 * m].len() == 0 {
            assert(!triple_ok(pv, m as int));
            return None;
        }
        let ghost before = columns_view(cols);
        let col = Column { name: ps[3 * m].clone(), kind, width: width as usize };
        cols.push(col);
        assert(columns_view(cols) =~= before.push(triples(pv)[m as int]));
        m = m + 1;
    }
    let ghost tv = triples(pv);
    assert(tv.take(n as int) =~= tv);
    assert(forall|c: int| 0 <= c < tv.len() ==> (#[trigger] tv[c]).2 > 0) by {
        assert forall|c: int| 0 <= c < tv.len() implies (#[trigger] tv[c]).2 > 0 by {
            assert(triple_ok(pv, c));
        }
    }
    let mut total: usize = 0;
    let mut c: usize = 0;
    while c < cols.len()
        invariant
            tv == columns_view(cols),
            tv == triples(pv),
            pv == pieces(s@, 58u8),
            pv.len() % 3 == 0,
            forall|j: int| 0 <= j < pv.len() / 3 ==> #[trigger] triple_ok(pv, j),
            c <= cols.len(),
            total == widths_sum(tv.take(c as int)),
            forall|k: int| 0 <= k < tv.len() ==> (#[trigger] tv[k]).2 > 0,
        decreases cols.len() - c,
    {
        assert(tv.take(c + 1).drop_last() =~= tv.take(c as int));
        assert(tv.take(c + 1).last() == tv[c as int]);
        assert(tv[c as int].2 == cols[c as int].width);
        if total > usize::MAX - cols[c].width {
            proof {
                lemma_widths_prefix(tv, c + 1);
            }
            return None;
        }
        total = total + cols[c].width;
        c = c + 1;
    }
    assert(tv.take(cols.len() as int) =~= tv);
    Some(cols)
}

} // verus!

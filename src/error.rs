use vstd::prelude::*;

verus! {

/// Why a configuration could not be read. Offsets in the comment line count
/// bytes from its start; rows count from zero, the first atom's row being 0.
#[derive(Debug, PartialEq, Eq, Structural)]
pub enum ParseError {
    /// A quoted string opened at `at` is not closed before the end of the line.
    LexError { at: usize },
    /// The text does not follow the grammar at byte `at` of line `line`
    /// (line 0 holds the atom count, line 1 the comment).
    GrammarError { line: usize, at: usize },
    /// The quoted matrix literal opened at `at` has rows of unequal width (or
    /// an empty row).
    RaggedMatrix { at: usize },
    /// The `Properties` value is not a string of `name:type:width` triplets.
    PropertiesError,
    /// Field `field` of atom row `row` does not read as its column's type.
    TypeCoercionError { row: usize, field: usize },
    /// Atom row `row` has `actual` fields where the columns need `expected`.
    RowFieldCountMismatch { row: usize, expected: usize, actual: usize },
    /// The input ends after `actual` of `expected` atom rows.
    RowCountMismatch { expected: usize, actual: usize },
}

} // verus!

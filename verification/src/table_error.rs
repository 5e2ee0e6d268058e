use vstd::prelude::*;

verus! {

/// Errors raised while turning raw text into cells or sheet structure.
/// They abort ingestion of the offending token and are returned to the
/// caller, never thrown.
#[derive(Debug, Clone)]
pub enum ParseError {
    /// The header line of the raw input could not be split into column ids.
    MalformedHeader,
    /// The raw text fits none of the cell shapes; carries the text itself.
    UnparseableCell(String),
    /// An expression listed fewer than two operand references.
    TooFewOperands,
    /// A formula named a function other than `SUM` or `MIN`.
    UnknownFunction,
    /// A formula did not have the shape `=FUNC(BEGIN:END)`.
    MalformedRange,
}

/// The kind of a cell parse failure, for contracts: the executable
/// [`ParseError`] carries the raw text where this kind says
/// `Unparseable`.
#[derive(Debug, Clone, Copy, PartialEq, Eq, Structural)]
pub enum CellTextError {
    TooFewOperands,
    UnknownFunction,
    MalformedRange,
    Unparseable,
}

/// Whether the executable parse error `e` renders the failure kind `k`
/// over the raw cell text `raw`.
pub open spec fn matches_kind(e: ParseError, k: CellTextError, raw: Seq<char>) -> bool {
    match k {
        CellTextError::TooFewOperands => e is TooFewOperands,
        CellTextError::UnknownFunction => e is UnknownFunction,
        CellTextError::MalformedRange => e is MalformedRange,
        CellTextError::Unparseable => e matches ParseError::UnparseableCell(t) && t@ == raw,
    }
}

/// Errors raised by the sheet or the renderer on access outside the
/// declared rows and columns.
#[derive(Debug, Clone, Copy, PartialEq, Eq, Structural)]
pub enum StructuralError {
    /// A row id that is not in the sheet's row sequence.
    InvalidRowId,
    /// A column id that is not in the sheet's column sequence.
    InvalidColumnId,
    /// A numeric row or column index beyond the declared count.
    IndexOutOfBounds,
}

/// Errors raised per cell while computing the sheet. A failure is recorded
/// in that cell's slot of the result grid and does not abort the pass.
#[derive(Debug, Clone, Copy, PartialEq, Eq, Structural)]
pub enum EvalError {
    /// An operand or range corner that does not name a cell of the sheet.
    UnresolvableReference,
    /// Resolution re-entered a cell that is still being resolved.
    CircularReference,
    /// A range member failed to resolve to a literal value.
    InvalidRangeMember,
    /// `MIN` over a range in which every member is empty.
    EmptyRange,
    /// An exact result would not fit the value representation.
    Overflow,
}

/// The marker text that stands in a cell's place in the rendered grid
/// when evaluating that one cell failed.
pub open spec fn marker_text(e: EvalError) -> Seq<char> {
    match e {
        EvalError::UnresolvableReference => "#REF!"@,
        EvalError::CircularReference => "#CIRC!"@,
        EvalError::InvalidRangeMember => "#RANGE!"@,
        EvalError::EmptyRange => "#EMPTY!"@,
        EvalError::Overflow => "#OVFL!"@,
    }
}

impl EvalError {
    /// The marker text recorded in a failed cell's slot.
    pub fn marker(&self) -> (r: String)
        ensures
            r@ == marker_text(*self),
    {
        match self {
            EvalError::UnresolvableReference => String::from_str("#REF!"),
            EvalError::CircularReference => String::from_str("#CIRC!"),
            EvalError::InvalidRangeMember => String::from_str("#RANGE!"),
            EvalError::EmptyRange => String::from_str("#EMPTY!"),
            EvalError::Overflow => String::from_str("#OVFL!"),
        }
    }
}

/// Errors of the column-address codec.
#[derive(Debug, Clone, Copy, PartialEq, Eq, Structural)]
pub enum IdError {
    /// A column position of zero: positions are 1-based.
    InvalidPosition,
    /// A label that is empty, holds a character outside `A`-`Z`, or names
    /// a position beyond the supported range.
    InvalidLabel,
}

} // verus!

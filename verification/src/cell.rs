use vstd::prelude::*;
use crate::value::Value;
use crate::expression::{Expression, parse_expr_text};
use crate::formula::{Formula, parse_formula_text};
use crate::table_error::{ParseError, CellTextError, matches_kind};
use crate::textscan::{tokens_from, tokenize, is_single};

verus! {

/// What a cell holds, for contracts: the abstract content that a [`Cell`]
/// views as.
pub enum CellText {
    /// No content.
    Blank,
    /// A literal numeric value.
    Lit(Value),
    /// An arithmetic expression: the operator tag (addition when `add`
    /// holds) and the operand references in fold order.
    Expr { add: bool, ops: Seq<Seq<char>> },
    /// A range aggregate: the function tag (`SUM` when `sum` holds) and
    /// the two corner addresses.
    Range { sum: bool, begin: Seq<char>, end: Seq<char> },
}

/// One cell of the sheet: a literal value, an arithmetic expression over
/// named cells, a range-aggregate formula, or nothing. Exactly one
/// variant is active, and every consumer matches on all four.
#[derive(Debug)]
pub enum Cell {
    Value(Value),
    Expression(Expression),
    Formula(Formula),
    Empty,
}

impl View for Cell {
    type V = CellText;

    open spec fn view(&self) -> CellText {
        match self {
            Cell::Empty => CellText::Blank,
            Cell::Value(v) => CellText::Lit(*v),
            Cell::Expression(e) => CellText::Expr { add: e.is_add(), ops: e.operands() },
            Cell::Formula(f) => CellText::Range {
                sum: f.is_sum(),
                begin: f.begin_spec(),
                end: f.end_spec(),
            },
        }
    }
}

/// What raw cell text parses to, in precedence order: empty text is a
/// blank cell; a numeric literal is a value; text whose first
/// whitespace token is a bare `=` is an expression; other text starting
/// with `=` is a formula; anything else fails.
pub open spec fn parse_cell_text(s: Seq<char>) -> Result<CellText, CellTextError> {
    if s.len() == 0 {
        Ok(CellText::Blank)
    } else if Value::parse_text(s) is Some {
        Ok(CellText::Lit(Value::parse_text(s)->Some_0))
    } else {
        let toks = tokens_from(s, 0);
        if toks.len() > 0 && toks[0] == seq!['='] {
            match parse_expr_text(s) {
                Ok(r) => Ok(CellText::Expr { add: r.0, ops: r.1 }),
                Err(k) => Err(k),
            }
        } else if s[0] == '=' {
            match parse_formula_text(s) {
                Ok(r) => Ok(CellText::Range { sum: r.0, begin: r.1, end: r.2 }),
                Err(k) => Err(k),
            }
        } else {
            Err(CellTextError::Unparseable)
        }
    }
}

impl Cell {
    /// Whether the cell holds nothing.
    pub fn is_empty(&self) -> (r: bool)
        ensures
            r == (self@ is Blank),
    {
        if let Cell::Empty = self {
            return true;
        }
        false
    }

    /// A well-formed cell: a literal's value is well-formed.
    pub open spec fn wf(self) -> bool {
        match self {
            Cell::Value(v) => v.wf(),
            _ => true,
        }
    }

    /// Parses raw cell text, in precedence order: empty, numeric literal,
    /// expression, formula.
    pub fn from_str(s: &str) -> (r: Result<Cell, ParseError>)
        ensures
            r matches Ok(c) ==> parse_cell_text(s@) == Ok::<_, CellTextError>(c@) && c.wf(),
            r is Ok <==> parse_cell_text(s@) is Ok,
            r matches Err(pe) ==> parse_cell_text(s@) matches Err(k) && matches_kind(pe, k, s@),
    {
        if s.is_empty() {
            return Ok(Cell::Empty);
        }
        match Value::from_str(s) {
            Ok(v) => {
                return Ok(Cell::Value(v));
            },
            Err(_) => {},
        }
        let toks = tokenize(s);
        let mut expr_route = false;
        if toks.len() > 0 {
            let t0 = &toks[0];
            proof {
                assert(toks.deep_view()[0] == toks@[0]@);
            }
            expr_route = is_single(t0.as_str(), '=');
        }
        if expr_route {
            match Expression::from_str(s) {
                Ok(e) => Ok(Cell::Expression(e)),
                Err(pe) => Err(pe),
            }
        } else if s.get_char(0) == '=' {
            match Formula::from_str(s) {
                Ok(f) => Ok(Cell::Formula(f)),
                Err(pe) => Err(pe),
            }
        } else {
            Err(ParseError::UnparseableCell(s.to_owned()))
        }
    }
}

} // verus!

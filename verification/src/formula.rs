use vstd::prelude::*;
use crate::table_error::{ParseError, CellTextError, matches_kind};
use crate::textscan::{parts_from, split_delims, str_eq};

verus! {

/// A range-aggregate cell: the function to apply and the two corner
/// addresses of the inclusive range it runs over.
#[derive(Debug)]
pub enum Formula {
    Sum((String, String)),
    Min((String, String)),
}

/// What formula text parses to: split on `=`, `(`, `:` and `)` it must
/// fall into exactly an empty lead, a function name, the two corners,
/// and an empty tail; the function must be `SUM` or `MIN`.
pub open spec fn parse_formula_text(s: Seq<char>) -> Result<
    (bool, Seq<char>, Seq<char>),
    CellTextError,
> {
    let parts = parts_from(s, 0);
    if parts.len() != 5 || parts[0] != Seq::<char>::empty() || parts[4] != Seq::<char>::empty() {
        Err(CellTextError::MalformedRange)
    } else if parts[1] == seq!['S', 'U', 'M'] {
        Ok((true, parts[2], parts[3]))
    } else if parts[1] == seq!['M', 'I', 'N'] {
        Ok((false, parts[2], parts[3]))
    } else {
        Err(CellTextError::UnknownFunction)
    }
}

impl Formula {
    /// Whether the formula sums its range; otherwise it takes the
    /// minimum.
    pub open spec fn is_sum(self) -> bool {
        self matches Formula::Sum(_)
    }

    /// The first corner address of the range.
    pub open spec fn begin_spec(self) -> Seq<char> {
        match self {
            Formula::Sum(a) => a.0@,
            Formula::Min(a) => a.0@,
        }
    }

    /// The second corner address of the range.
    pub open spec fn end_spec(self) -> Seq<char> {
        match self {
            Formula::Sum(a) => a.1@,
            Formula::Min(a) => a.1@,
        }
    }

    /// The first corner address of the range.
    pub fn begin(&self) -> (r: &String)
        ensures
            r@ == self.begin_spec(),
    {
        match self {
            Formula::Sum(a) => &a.0,
            Formula::Min(a) => &a.0,
        }
    }

    /// The second corner address of the range.
    pub fn end(&self) -> (r: &String)
        ensures
            r@ == self.end_spec(),
    {
        match self {
            Formula::Sum(a) => &a.1,
            Formula::Min(a) => &a.1,
        }
    }

    /// Parses formula text of the shape `=FUNC(BEGIN:END)` with `FUNC`
    /// either `SUM` or `MIN`.
    pub fn from_str(s: &str) -> (r: Result<Formula, ParseError>)
        ensures
            r matches Ok(f) ==> parse_formula_text(s@) == Ok::<_, CellTextError>(
                (f.is_sum(), f.begin_spec(), f.end_spec()),
            ),
            r is Ok <==> parse_formula_text(s@) is Ok,
            r matches Err(pe) ==> parse_formula_text(s@) matches Err(k) && matches_kind(pe, k, s@),
    {
        let parts = split_delims(s);
        let ghost dv = parts.deep_view();
        if parts.len() != 5 {
            return Err(ParseError::MalformedRange);
        }
        proof {
            assert(dv[0] == parts@[0]@);
            assert(dv[1] == parts@[1]@);
            assert(dv[2] == parts@[2]@);
            assert(dv[3] == parts@[3]@);
            assert(dv[4] == parts@[4]@);
        }
        if !parts[0].as_str().is_empty() || !parts[4].as_str().is_empty() {
            proof {
                if dv[0].len() != 0 {
                    assert(dv[0] != Seq::<char>::empty());
                } else {
                    assert(dv[4] != Seq::<char>::empty());
                }
            }
            return Err(ParseError::MalformedRange);
        }
        proof {
            assert(dv[0] =~= Seq::<char>::empty());
            assert(dv[4] =~= Seq::<char>::empty());
            reveal_strlit("SUM");
            reveal_strlit("MIN");
            assert("SUM"@ =~= seq!['S', 'U', 'M']);
            assert("MIN"@ =~= seq!['M', 'I', 'N']);
        }
        let begin = parts[2].clone();
        let end = parts[3].clone();
        if str_eq(parts[1].as_str(), "SUM") {
            Ok(Formula::Sum((begin, end)))
        } else if str_eq(parts[1].as_str(), "MIN") {
            Ok(Formula::Min((begin, end)))
        } else {
            Err(ParseError::UnknownFunction)
        }
    }
}

/// The four arithmetic operator symbols of expression text; only
/// addition and subtraction take part in evaluation.
#[derive(Debug, Clone, Copy, PartialEq, Eq, Structural)]
pub enum Operator {
    Addition,
    Subtraction,
    Multiplication,
    Division,
}

/// The operator that a one-character token denotes, if any.
pub open spec fn parse_op_text(s: Seq<char>) -> Option<Operator> {
    if s == seq!['+'] {
        Some(Operator::Addition)
    } else if s == seq!['-'] {
        Some(Operator::Subtraction)
    } else if s == seq!['*'] {
        Some(Operator::Multiplication)
    } else if s == seq!['/'] {
        Some(Operator::Division)
    } else {
        None
    }
}

impl Operator {
    /// Parses one operator symbol.
    pub fn from_str(s: &str) -> (r: Result<Operator, ParseError>)
        ensures
            r matches Ok(o) ==> parse_op_text(s@) == Some(o),
            r is Ok <==> parse_op_text(s@) is Some,
            r matches Err(e) ==> e matches ParseError::UnparseableCell(t) && t@ == s@,
    {
        if crate::textscan::is_single(s, '+') {
            Ok(Operator::Addition)
        } else if crate::textscan::is_single(s, '-') {
            Ok(Operator::Subtraction)
        } else if crate::textscan::is_single(s, '*') {
            Ok(Operator::Multiplication)
        } else if crate::textscan::is_single(s, '/') {
            Ok(Operator::Division)
        } else {
            Err(ParseError::UnparseableCell(s.to_owned()))
        }
    }
}

} // verus!

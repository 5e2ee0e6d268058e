use vstd::prelude::*;
use crate::value::Value;
use crate::table_error::{ParseError, EvalError, CellTextError, matches_kind};
use crate::textscan::{tokens_from, tokenize, contains_char, find_char, is_single};

verus! {

/// An arithmetic cell: an operator tag and the cell references it folds,
/// in order. `Add` sums the referenced values, `Sub` subtracts each of
/// them from integer zero.
#[derive(Debug)]
pub enum Expression {
    Add(Vec<String>),
    Sub(Vec<String>),
}

/// Folds `vals` left to right into `acc` with the exact sum (or, when
/// `sub` holds, difference); a result that does not fit the value
/// representation is an overflow failure.
pub open spec fn spec_fold(vals: Seq<Value>, acc: Value, sub: bool) -> Result<Value, EvalError>
    decreases vals.len(),
{
    if vals.len() == 0 {
        Ok(acc)
    } else {
        match Value::spec_combine(acc, vals[0], sub) {
            Some(v) => spec_fold(vals.skip(1), v, sub),
            None => Err(EvalError::Overflow),
        }
    }
}

/// A fold of well-formed values from a well-formed accumulator yields a
/// well-formed value.
pub proof fn lemma_spec_fold_wf(vals: Seq<Value>, acc: Value, sub: bool)
    requires
        acc.wf(),
        forall|i: int| 0 <= i < vals.len() ==> (#[trigger] vals[i]).wf(),
    ensures
        spec_fold(vals, acc, sub) matches Ok(v) ==> v.wf(),
    decreases vals.len(),
{
    if vals.len() > 0 {
        Value::lemma_combine(acc, vals[0], sub);
        match Value::spec_combine(acc, vals[0], sub) {
            Some(v) => {
                assert(forall|i: int|
                    0 <= i < vals.skip(1).len() ==> (#[trigger] vals.skip(1)[i]).wf());
                lemma_spec_fold_wf(vals.skip(1), v, sub);
            },
            None => {},
        }
    }
}

/// The operand tokens after the `=` marker: every token that is not a
/// bare `+` or `-`.
pub open spec fn operands_from(toks: Seq<Seq<char>>, i: int) -> Seq<Seq<char>>
    decreases toks.len() - i when 0 <= i <= toks.len()
{
    if i >= toks.len() {
        Seq::empty()
    } else if toks[i] == seq!['+'] || toks[i] == seq!['-'] {
        operands_from(toks, i + 1)
    } else {
        seq![toks[i]] + operands_from(toks, i + 1)
    }
}

/// What expression text parses to: the text is split on whitespace, the
/// first token must be a bare `=`, at least two operand tokens must
/// follow, and the operator is addition when the raw text holds a `+`
/// anywhere, else subtraction when it holds a `-` anywhere.
pub open spec fn parse_expr_text(s: Seq<char>) -> Result<(bool, Seq<Seq<char>>), CellTextError> {
    let toks = tokens_from(s, 0);
    if toks.len() == 0 || toks[0] != seq!['='] {
        Err(CellTextError::Unparseable)
    } else {
        let ops = operands_from(toks, 1);
        if ops.len() < 2 {
            Err(CellTextError::TooFewOperands)
        } else if contains_char(s, '+') {
            Ok((true, ops))
        } else if contains_char(s, '-') {
            Ok((false, ops))
        } else {
            Err(CellTextError::Unparseable)
        }
    }
}

impl Expression {
    /// The operand references, in the order they are folded.
    pub open spec fn operands(self) -> Seq<Seq<char>> {
        match self {
            Expression::Add(v) => v.deep_view(),
            Expression::Sub(v) => v.deep_view(),
        }
    }

    /// Whether the expression folds with addition.
    pub open spec fn is_add(self) -> bool {
        self matches Expression::Add(_)
    }

    /// The operand vector, whichever operator the expression carries.
    pub fn operands_vec(&self) -> (r: &Vec<String>)
        ensures
            r.deep_view() == self.operands(),
    {
        match self {
            Expression::Add(v) => v,
            Expression::Sub(v) => v,
        }
    }

    /// How many operand references the expression holds.
    pub fn arguments_len(&self) -> (r: usize)
        ensures
            r == self.operands().len(),
    {
        match self {
            Expression::Add(v) => v.len(),
            Expression::Sub(v) => v.len(),
        }
    }

    fn add_argument(&mut self, argument: String)
        ensures
            final(self).operands() =~= old(self).operands().push(argument@),
            final(self).is_add() == old(self).is_add(),
    {
        match self {
            Expression::Add(v) => {
                let ghost o = v.deep_view();
                v.push(argument);
                proof {
                    assert(v.deep_view() =~= o.push(argument@));
                }
            },
            Expression::Sub(v) => {
                let ghost o = v.deep_view();
                v.push(argument);
                proof {
                    assert(v.deep_view() =~= o.push(argument@));
                }
            },
        }
    }

    /// Folds the given literal values left to right with addition,
    /// starting from integer zero.
    pub fn sum(&self, values: &Vec<Value>) -> (r: Result<Value, EvalError>)
        requires
            forall|i: int| 0 <= i < values@.len() ==> (#[trigger] values@[i]).wf(),
        ensures
            r == spec_fold(values@, Value::Int(0), false),
            r matches Ok(v) ==> v.wf(),
    {
        Expression::fold_values(values, false)
    }

    /// Folds the given literal values left to right with subtraction,
    /// starting from integer zero: the result is zero minus every value.
    pub fn difference(&self, values: &Vec<Value>) -> (r: Result<Value, EvalError>)
        requires
            forall|i: int| 0 <= i < values@.len() ==> (#[trigger] values@[i]).wf(),
        ensures
            r == spec_fold(values@, Value::Int(0), true),
            r matches Ok(v) ==> v.wf(),
    {
        Expression::fold_values(values, true)
    }

    fn fold_values(values: &Vec<Value>, sub: bool) -> (r: Result<Value, EvalError>)
        requires
            forall|i: int| 0 <= i < values@.len() ==> (#[trigger] values@[i]).wf(),
        ensures
            r == spec_fold(values@, Value::Int(0), sub),
            r matches Ok(v) ==> v.wf(),
    {
        let mut acc = Value::Int(0);
        let mut i: usize = 0;
        proof {
            assert(values@.skip(0) =~= values@);
        }
        while i < values.len()
            invariant
                0 <= i <= values@.len(),
                forall|k: int| 0 <= k < values@.len() ==> (#[trigger] values@[k]).wf(),
                acc.wf(),
                spec_fold(values@.skip(i as int), acc, sub) == spec_fold(
                    values@,
                    Value::Int(0),
                    sub,
                ),
            decreases values@.len() - i,
        {
            let v = values[i];
            proof {
                Value::lemma_combine(acc, v, sub);
                assert(values@.skip(i as int)[0] == values@[i as int]);
                assert(values@.skip(i as int).skip(1) =~= values@.skip(i as int + 1));
            }
            let combined = if sub {
                acc.checked_sub(v)
            } else {
                acc.checked_add(v)
            };
            match combined {
                Some(nv) => {
                    acc = nv;
                },
                None => {
                    return Err(EvalError::Overflow);
                },
            }
            i = i + 1;
        }
        proof {
            assert(values@.skip(values@.len() as int) =~= Seq::<Value>::empty());
        }
        Ok(acc)
    }

    /// Parses expression text: a bare `=` token, then whitespace-separated
    /// tokens of which at least two must be operand references. The
    /// operator is addition when the raw text holds a `+` anywhere, else
    /// subtraction when it holds a `-` anywhere; bare `+` and `-` tokens
    /// are not operands.
    pub fn from_str(s: &str) -> (r: Result<Expression, ParseError>)
        ensures
            r matches Ok(e) ==> parse_expr_text(s@) == Ok::<_, CellTextError>(
                (e.is_add(), e.operands()),
            ),
            r is Ok <==> parse_expr_text(s@) is Ok,
            r matches Err(pe) ==> parse_expr_text(s@) matches Err(k) && matches_kind(pe, k, s@),
    {
        let toks = tokenize(s);
        let ghost dv = toks.deep_view();
        if toks.len() == 0 {
            return Err(ParseError::UnparseableCell(s.to_owned()));
        }
        let t0 = &toks[0];
        proof {
            assert(dv[0] == toks@[0]@);
        }
        if !is_single(t0.as_str(), '=') {
            return Err(ParseError::UnparseableCell(s.to_owned()));
        }
        let mut ops: Vec<String> = Vec::new();
        let mut i: usize = 1;
        while i < toks.len()
            invariant
                1 <= i <= toks@.len(),
                dv == toks.deep_view(),
                dv.len() == toks@.len(),
                ops.deep_view() + operands_from(dv, i as int) == operands_from(dv, 1),
            decreases toks@.len() - i,
        {
            let t = &toks[i];
            proof {
                assert(dv[i as int] == toks@[i as int]@);
            }
            if is_single(t.as_str(), '+') || is_single(t.as_str(), '-') {
                proof {
                    assert(operands_from(dv, i as int) == operands_from(dv, i as int + 1));
                }
            } else {
                let ghost old_ops = ops.deep_view();
                ops.push(t.clone());
                proof {
                    assert(ops.deep_view() =~= old_ops.push(dv[i as int]));
                    assert(operands_from(dv, i as int) == seq![dv[i as int]] + operands_from(
                        dv,
                        i as int + 1,
                    ));
                    assert(ops.deep_view() + operands_from(dv, i as int + 1) =~= old_ops
                        + operands_from(dv, i as int));
                }
            }
            i = i + 1;
        }
        proof {
            assert(operands_from(dv, dv.len() as int) =~= Seq::<Seq<char>>::empty());
            assert(ops.deep_view() =~= operands_from(dv, 1));
        }
        if ops.len() < 2 {
            return Err(ParseError::TooFewOperands);
        }
        if find_char(s, '+') {
            Ok(Expression::Add(ops))
        } else if find_char(s, '-') {
            Ok(Expression::Sub(ops))
        } else {
            Err(ParseError::UnparseableCell(s.to_owned()))
        }
    }
}

} // verus!

use vstd::prelude::*;
use crate::cell::{Cell, CellText};
use crate::expression::{Expression, spec_fold};
use crate::formula::Formula;
use crate::id_converter::{position_of, is_upper, is_upper_char, valid_label, lemma_position_positive, base10_to_base26, label_of};
use crate::table_error::{StructuralError, EvalError, marker_text};
use crate::table_output::TableOutput;
use crate::value::Value;

verus! {

/// The sheet: the ordered column ids, the ordered row ids (both in
/// insertion order, which is also iteration and render order), and one
/// optional cell per (row, column) slot. A slot holding nothing is an
/// empty cell.
#[derive(Debug)]
pub struct Table {
    pub columns: Vec<String>,
    pub rows: Vec<String>,
    pub grid: Vec<Vec<Option<Cell>>>,
}

impl Table {
    /// A well-formed sheet: one grid row per row id, one slot per column
    /// id in each, and every stored literal value well-formed.
    pub open spec fn wf(self) -> bool {
        &&& self.grid@.len() == self.rows@.len()
        &&& forall|i: int|
            0 <= i < self.grid@.len() ==> (#[trigger] self.grid@[i])@.len()
                == self.columns@.len()
        &&& forall|i: int, j: int|
            0 <= i < self.grid@.len() && 0 <= j < self.columns@.len() ==> (match #[trigger] self.grid@[i]@[j] {
                Some(c) => c.wf(),
                None => true,
            })
    }

    /// What the slot at (`r`, `c`) holds; a missing cell is blank.
    pub open spec fn cell_at(self, r: int, c: int) -> CellText {
        match self.grid@[r]@[c] {
            Some(c) => c@,
            None => CellText::Blank,
        }
    }

    /// A sheet with no rows, no columns and no cells.
    pub fn empty() -> (r: Table)
        ensures
            r.wf(),
            r.columns@.len() == 0,
            r.rows@.len() == 0,
            r.grid@.len() == 0,
    {
        Table { columns: Vec::new(), rows: Vec::new(), grid: Vec::new() }
    }

    /// Appends one row id, with an empty slot under every column.
    pub fn add_row(&mut self, row_id: String)
        requires
            old(self).wf(),
        ensures
            final(self).wf(),
            final(self).columns == old(self).columns,
            final(self).rows.deep_view() =~= old(self).rows.deep_view().push(row_id@),
            final(self).grid@.len() == old(self).grid@.len() + 1,
            forall|i: int|
                0 <= i < old(self).grid@.len() ==> final(self).grid@[i] == old(self).grid@[i],
            forall|j: int|
                0 <= j < old(self).columns@.len() ==> (#[trigger] final(self).grid@[old(self).grid@.len() as int]@[j])
                    is None,
    {
        self.rows.push(row_id);
        let mut new_row: Vec<Option<Cell>> = Vec::new();
        let cols = self.columns.len();
        let mut j: usize = 0;
        while j < cols
            invariant
                0 <= j <= cols,
                new_row@.len() == j,
                forall|k: int| 0 <= k < j ==> (#[trigger] new_row@[k]) is None,
            decreases cols - j,
        {
            new_row.push(None);
            j = j + 1;
        }
        self.grid.push(new_row);
    }

    /// Appends one column id, with an empty slot at the end of every row.
    pub fn add_column(&mut self, col_id: String)
        requires
            old(self).wf(),
        ensures
            final(self).wf(),
            final(self).rows == old(self).rows,
            final(self).columns.deep_view() =~= old(self).columns.deep_view().push(col_id@),
            final(self).grid@.len() == old(self).grid@.len(),
            forall|i: int, j: int|
                0 <= i < old(self).grid@.len() && 0 <= j < old(self).columns@.len() ==> (
                #[trigger] final(self).grid@[i]@[j]) == old(self).grid@[i]@[j],
            forall|i: int|
                0 <= i < old(self).grid@.len() ==> (#[trigger] final(self).grid@[i]@[old(self).columns@.len() as int])
                    is None,
    {
        self.columns.push(col_id);
        let n = self.grid.len();
        let mut i: usize = 0;
        while i < n
            invariant
                old(self).wf(),
                0 <= i <= n,
                n == self.grid@.len() == old(self).grid@.len(),
                self.rows == old(self).rows,
                self.columns@ == old(self).columns@.push(col_id),
                forall|k: int| i <= k < n ==> (#[trigger] self.grid@[k]) == old(self).grid@[k],
                forall|k: int|
                    0 <= k < i ==> (#[trigger] self.grid@[k])@.len() == old(self).grid@[k]@.len()
                        + 1,
                forall|k: int, j: int|
                    0 <= k < i && 0 <= j < old(self).grid@[k]@.len() ==> (#[trigger] self.grid@[k]@[j])
                        == old(self).grid@[k]@[j],
                forall|k: int|
                    0 <= k < i ==> (#[trigger] self.grid@[k]@[old(self).grid@[k]@.len() as int])
                        is None,
            decreases n - i,
        {
            let mut row = self.grid.remove(i);
            row.push(None);
            self.grid.insert(i, row);
            i = i + 1;
        }
    }

    /// The index of the first row with the given id, or -1.
    pub open spec fn row_of(self, row_id: Seq<char>) -> int {
        find_first(self.rows.deep_view(), row_id, 0)
    }

    /// The index of the first column with the given id, or -1.
    pub open spec fn col_of(self, col_id: Seq<char>) -> int {
        find_first(self.columns.deep_view(), col_id, 0)
    }

    /// The index of the first row with the given id, if any.
    fn find_row_index(&self, row_id: &String) -> (r: Option<usize>)
        ensures
            r matches Some(i) ==> i < self.rows@.len() && find_first(
                self.rows.deep_view(),
                row_id@,
                0,
            ) == i as int,
            r is None ==> find_first(self.rows.deep_view(), row_id@, 0) == -1,
    {
        Table::find_in(&self.rows, row_id)
    }

    /// The index of the first column with the given id, if any.
    fn find_col_index(&self, col_id: &String) -> (r: Option<usize>)
        ensures
            r matches Some(i) ==> i < self.columns@.len() && find_first(
                self.columns.deep_view(),
                col_id@,
                0,
            ) == i as int,
            r is None ==> find_first(self.columns.deep_view(), col_id@, 0) == -1,
    {
        Table::find_in(&self.columns, col_id)
    }

    fn find_in(items: &Vec<String>, id: &String) -> (r: Option<usize>)
        ensures
            r matches Some(i) ==> i < items@.len() && find_first(items.deep_view(), id@, 0)
                == i as int,
            r is None ==> find_first(items.deep_view(), id@, 0) == -1,
    {
        let ghost dv = items.deep_view();
        let n = items.len();
        let mut i: usize = 0;
        while i < n
            invariant
                0 <= i <= n == items@.len(),
                dv == items.deep_view(),
                find_first(dv, id@, 0) == find_first(dv, id@, i as int),
            decreases n - i,
        {
            proof {
                assert(dv[i as int] == items@[i as int]@);
            }
            if items[i].eq(id) {
                return Some(i);
            }
            proof {
                assert(find_first(dv, id@, i as int) == find_first(dv, id@, i as int + 1));
            }
            i = i + 1;
        }
        None
    }

    /// Stores a cell under a row id and a column id; an id outside the
    /// declared sequences is refused and leaves the sheet unchanged. A
    /// duplicated id means its first occurrence.
    pub fn insert_cell_by_id(&mut self, row_id: &String, col_id: &String, cell: Cell) -> (r:
        Result<(), StructuralError>)
        requires
            old(self).wf(),
            cell.wf(),
        ensures
            final(self).wf(),
            r matches Err(e) ==> *final(self) == *old(self) && (e == StructuralError::InvalidRowId
                <==> old(self).row_of(row_id@) < 0) && (e == StructuralError::InvalidColumnId
                <==> old(self).row_of(row_id@) >= 0 && old(self).col_of(col_id@) < 0),
            r is Ok <==> old(self).row_of(row_id@) >= 0 && old(self).col_of(col_id@) >= 0,
            r is Ok ==> final(self).rows == old(self).rows && final(self).columns
                == old(self).columns && final(self).grid@.len() == old(self).grid@.len() && (forall|
                i: int,
                j: int,
            |
                0 <= i < old(self).grid@.len() && 0 <= j < old(self).columns@.len() && !(i
                    == old(self).row_of(row_id@) && j == old(self).col_of(col_id@)) ==> (
                #[trigger] final(self).grid@[i]@[j]) == old(self).grid@[i]@[j])
                && final(self).grid@[old(self).row_of(row_id@)]@[old(self).col_of(col_id@)]
                == Some(cell),
    {
        let ri = match self.find_row_index(row_id) {
            Some(i) => i,
            None => {
                return Err(StructuralError::InvalidRowId);
            },
        };
        let ci = match self.find_col_index(col_id) {
            Some(j) => j,
            None => {
                return Err(StructuralError::InvalidColumnId);
            },
        };
        proof {
            lemma_find_first_bounds(self.rows.deep_view(), row_id@, 0);
            lemma_find_first_bounds(self.columns.deep_view(), col_id@, 0);
        }
        let res = self.insert_cell_by_index(ri, ci, cell);
        proof {
            assert(res is Ok);
        }
        Ok(())
    }

    /// Stores a cell at a row index and a column index; an index beyond
    /// the declared counts is refused and leaves the sheet unchanged.
    pub fn insert_cell_by_index(&mut self, row_index: usize, col_index: usize, cell: Cell) -> (r:
        Result<(), StructuralError>)
        requires
            old(self).wf(),
            cell.wf(),
        ensures
            final(self).wf(),
            r matches Err(e) ==> e == StructuralError::IndexOutOfBounds && *final(self) == *old(
                self,
            ) && (row_index >= old(self).rows@.len() || col_index >= old(self).columns@.len()),
            r is Ok <==> row_index < old(self).rows@.len() && col_index
                < old(self).columns@.len(),
            r is Ok ==> final(self).rows == old(self).rows && final(self).columns
                == old(self).columns && final(self).grid@.len() == old(self).grid@.len() && (forall|i: int, j: int|
                0 <= i < old(self).grid@.len() && 0 <= j < old(self).columns@.len() && !(i
                    == row_index && j == col_index) ==> (#[trigger] final(self).grid@[i]@[j]) == old(
                    self,
                ).grid@[i]@[j]) && final(self).grid@[row_index as int]@[col_index as int] == Some(
                cell,
            ),
    {
        if row_index >= self.rows.len() || col_index >= self.columns.len() {
            return Err(StructuralError::IndexOutOfBounds);
        }
        let mut row = self.grid.remove(row_index);
        row.set(col_index, Some(cell));
        self.grid.insert(row_index, row);
        proof {
            assert(self.grid@ =~= old(self).grid@.update(
                row_index as int,
                self.grid@[row_index as int],
            ));
        }
        Ok(())
    }

    /// The cell stored under a row id and a column id, if any; ids mean
    /// their first occurrence.
    pub fn get_cell(&self, row_id: &String, col_id: &String) -> (r: Option<&Cell>)
        requires
            self.wf(),
        ensures
            r matches Some(c) ==> self.row_of(row_id@) >= 0 && self.col_of(col_id@) >= 0
                && self.grid@[self.row_of(row_id@)]@[self.col_of(col_id@)] == Some(*c),
            r is None ==> self.row_of(row_id@) < 0 || self.col_of(col_id@) < 0
                || self.grid@[self.row_of(row_id@)]@[self.col_of(col_id@)] is None,
    {
        let ri = match self.find_row_index(row_id) {
            Some(i) => i,
            None => {
                return None;
            },
        };
        let ci = match self.find_col_index(col_id) {
            Some(j) => j,
            None => {
                return None;
            },
        };
        proof {
            lemma_find_first_bounds(self.rows.deep_view(), row_id@, 0);
            lemma_find_first_bounds(self.columns.deep_view(), col_id@, 0);
        }
        let row = &self.grid[ri];
        match &row[ci] {
            Some(c) => Some(c),
            None => None,
        }
    }
}

/// How many marks are still clear: the termination measure of
/// resolution, which only ever sets marks while it descends.
pub open spec fn count_unmarked(v: Seq<bool>) -> nat
    decreases v.len(),
{
    if v.len() == 0 {
        0
    } else {
        count_unmarked(v.drop_last()) + (if v.last() {
            0nat
        } else {
            1nat
        })
    }
}

/// Setting a clear mark lowers the count of clear marks by one.
pub proof fn lemma_count_unmarked_set(v: Seq<bool>, i: int)
    requires
        0 <= i < v.len(),
        !v[i],
    ensures
        count_unmarked(v.update(i, true)) + 1 == count_unmarked(v),
    decreases v.len(),
{
    let w = v.update(i, true);
    if i == v.len() - 1 {
        assert(w.drop_last() =~= v.drop_last());
        assert(w.last());
        assert(!v.last());
    } else {
        assert(w.drop_last() =~= v.drop_last().update(i, true));
        lemma_count_unmarked_set(v.drop_last(), i);
        assert(w.last() == v.last());
    }
}

/// The first index at or after `i` whose character is not a label
/// letter, or the length.
pub open spec fn ref_letters_end(s: Seq<char>, i: int) -> int
    decreases s.len() - i when 0 <= i <= s.len()
{
    if i >= s.len() {
        i
    } else if !is_upper(s[i]) {
        i
    } else {
        ref_letters_end(s, i + 1)
    }
}

pub proof fn lemma_ref_letters_end_bounds(s: Seq<char>, i: int)
    requires
        0 <= i <= s.len(),
    ensures
        i <= ref_letters_end(s, i) <= s.len(),
        forall|k: int| i <= k < ref_letters_end(s, i) ==> is_upper(#[trigger] s[k]),
        ref_letters_end(s, i) < s.len() ==> !is_upper(s[ref_letters_end(s, i)]),
    decreases s.len() - i,
{
    if i < s.len() && is_upper(s[i]) {
        lemma_ref_letters_end_bounds(s, i + 1);
    }
}

impl Table {
    /// The cell that a reference like `B2` names: the leading letters
    /// give the 1-based column position, the rest must equal a row id.
    /// Nothing when the letters are missing, the position lies outside
    /// the columns, or no row carries the id.
    pub open spec fn resolve_ref(self, s: Seq<char>) -> Option<(int, int)> {
        let k = ref_letters_end(s, 0);
        let pos = position_of(s.take(k));
        let row = find_first(self.rows.deep_view(), s.skip(k), 0);
        if k >= 1 && 1 <= pos <= self.columns@.len() && row >= 0 {
            Some((row, pos - 1))
        } else {
            None
        }
    }

    /// Marks that are all clear, one per cell of the sheet.
    pub open spec fn fresh_marks(self) -> Seq<bool> {
        Seq::new((self.rows@.len() * self.columns@.len()) as nat, |i: int| false)
    }

    /// Resolves the cell at (`r`, `c`). `v` marks the cells whose
    /// resolution is in progress on the current descent: re-entering one
    /// is a circular reference. A blank resolves to nothing; a literal
    /// to its value; an expression resolves each of its operand
    /// references to a literal value and folds them from integer zero;
    /// a formula resolves every cell of the block its corners span.
    pub open spec fn spec_resolve(self, v: Seq<bool>, r: int, c: int) -> Result<
        Option<Value>,
        EvalError,
    >
        decreases count_unmarked(v), 0int, 0int
            via Table::spec_resolve_decreases
    {
        let cols = self.columns@.len() as int;
        let i = r * cols + c;
        if !(0 <= r < self.grid@.len() && 0 <= c < cols && v.len() == self.grid@.len() * cols) {
            Err(EvalError::UnresolvableReference)
        } else if v[i] {
            Err(EvalError::CircularReference)
        } else {
            let v2 = v.update(i, true);
            match self.cell_at(r, c) {
                CellText::Blank => Ok(None),
                CellText::Lit(val) => Ok(Some(val)),
                CellText::Expr { add, ops } => match self.resolve_operands(v2, ops, 0) {
                    Ok(vals) => match spec_fold(vals, Value::Int(0), !add) {
                        Ok(val) => Ok(Some(val)),
                        Err(e) => Err(e),
                    },
                    Err(e) => Err(e),
                },
                CellText::Range { sum, begin, end } => match (
                    self.resolve_ref(begin),
                    self.resolve_ref(end),
                ) {
                    (Some(b), Some(e)) => {
                        let r_lo = if b.0 <= e.0 {
                            b.0
                        } else {
                            e.0
                        };
                        let r_hi = if b.0 <= e.0 {
                            e.0
                        } else {
                            b.0
                        };
                        let c_lo = if b.1 <= e.1 {
                            b.1
                        } else {
                            e.1
                        };
                        let c_hi = if b.1 <= e.1 {
                            e.1
                        } else {
                            b.1
                        };
                        self.eval_range(
                            v2,
                            sum,
                            r_lo,
                            c_lo,
                            r_hi + 1 - r_lo,
                            c_hi + 1 - c_lo,
                            0,
                            if sum {
                                Some(Value::Int(0))
                            } else {
                                None
                            },
                        )
                    },
                    _ => Err(EvalError::UnresolvableReference),
                },
            }
        }
    }

    #[via_fn]
    proof fn spec_resolve_decreases(self, v: Seq<bool>, r: int, c: int) {
        let cols = self.columns@.len() as int;
        let i = r * cols + c;
        if 0 <= r < self.grid@.len() && 0 <= c < cols && v.len() == self.grid@.len() * cols {
            if !v[i] {
                assert(0 <= i < v.len()) by (nonlinear_arith)
                    requires
                        0 <= r < self.grid@.len(),
                        0 <= c < cols,
                        v.len() == self.grid@.len() * cols,
                        i == r * cols + c,
                ;
                lemma_count_unmarked_set(v, i);
            }
        }
    }

    /// Resolves each operand reference from `i` on to a literal value,
    /// left to right; the first failure wins, and a reference that
    /// resolves to nothing, or to no cell at all, cannot stand in an
    /// expression.
    pub open spec fn resolve_operands(self, v: Seq<bool>, ops: Seq<Seq<char>>, i: int) -> Result<
        Seq<Value>,
        EvalError,
    >
        decreases count_unmarked(v), 1int, ops.len() - i
    {
        if i < 0 || i >= ops.len() {
            Ok(Seq::empty())
        } else {
            match self.resolve_ref(ops[i]) {
                None => Err(EvalError::UnresolvableReference),
                Some(rc) => match self.spec_resolve(v, rc.0, rc.1) {
                    Err(e) => Err(e),
                    Ok(None) => Err(EvalError::UnresolvableReference),
                    Ok(Some(val)) => match self.resolve_operands(v, ops, i + 1) {
                        Err(e) => Err(e),
                        Ok(rest) => Ok(seq![val] + rest),
                    },
                },
            }
        }
    }

    /// Walks the range block row-major, from flat offset `k` on, carrying
    /// the aggregate so far: blanks are skipped, a member that fails to
    /// resolve to a value poisons the range, `SUM` adds exactly, `MIN`
    /// keeps the numerically smaller value, and a `MIN` over nothing is
    /// an empty range.
    pub open spec fn eval_range(
        self,
        v: Seq<bool>,
        sum: bool,
        r_lo: int,
        c_lo: int,
        n_r: int,
        n_c: int,
        k: int,
        acc: Option<Value>,
    ) -> Result<Option<Value>, EvalError>
        decreases count_unmarked(v), 1int, n_r * n_c - k
    {
        if k < 0 || n_c <= 0 || k >= n_r * n_c {
            match acc {
                Some(x) => Ok(Some(x)),
                None => Err(EvalError::EmptyRange),
            }
        } else {
            let rr = r_lo + k / n_c;
            let cc = c_lo + k % n_c;
            match self.spec_resolve(v, rr, cc) {
                Err(_) => Err(EvalError::InvalidRangeMember),
                Ok(None) => self.eval_range(v, sum, r_lo, c_lo, n_r, n_c, k + 1, acc),
                Ok(Some(val)) => {
                    if sum {
                        match acc {
                            Some(a) => match Value::spec_combine(a, val, false) {
                                Some(nv) => self.eval_range(
                                    v,
                                    sum,
                                    r_lo,
                                    c_lo,
                                    n_r,
                                    n_c,
                                    k + 1,
                                    Some(nv),
                                ),
                                None => Err(EvalError::Overflow),
                            },
                            None => Err(EvalError::EmptyRange),
                        }
                    } else {
                        let nv = match acc {
                            Some(a) => Value::spec_min(a, val),
                            None => val,
                        };
                        self.eval_range(v, sum, r_lo, c_lo, n_r, n_c, k + 1, Some(nv))
                    }
                },
            }
        }
    }

    /// The text that evaluation leaves in the slot at (`r`, `c`): a
    /// value's display text, nothing for a blank, or the failure's
    /// marker.
    pub open spec fn result_text(self, r: int, c: int) -> Seq<char> {
        match self.spec_resolve(self.fresh_marks(), r, c) {
            Ok(Some(val)) => val.text_of(),
            Ok(None) => Seq::empty(),
            Err(e) => marker_text(e),
        }
    }
}

impl Table {
    /// Looks a reference like `B2` up in the sheet: the row and column
    /// indices of the cell it names, if any.
    fn ref_lookup(&self, s: &str) -> (r: Option<(usize, usize)>)
        requires
            self.wf(),
        ensures
            r matches Some(p) ==> self.resolve_ref(s@) == Some((p.0 as int, p.1 as int)) && p.0
                < self.grid@.len() && p.1 < self.columns@.len(),
            r is None ==> self.resolve_ref(s@) is None,
    {
        let len = s.unicode_len();
        let mut k: usize = 0;
        while k < len && is_upper_char(s.get_char(k))
            invariant
                0 <= k <= len == s@.len(),
                ref_letters_end(s@, 0) == ref_letters_end(s@, k as int),
                forall|t: int| 0 <= t < k ==> is_upper(#[trigger] s@[t]),
            decreases len - k,
        {
            proof {
                assert(ref_letters_end(s@, k as int) == ref_letters_end(s@, k as int + 1));
            }
            k = k + 1;
        }
        proof {
            assert(ref_letters_end(s@, k as int) == k as int);
        }
        if k == 0 {
            return None;
        }
        let cols = self.columns.len();
        let ghost label = s@.take(k as int);
        let mut acc: u64 = 0;
        let mut big = false;
        let mut j: usize = 0;
        while j < k
            invariant
                0 < k <= len == s@.len(),
                cols == self.columns@.len(),
                label == s@.take(k as int),
                forall|t: int| 0 <= t < k ==> is_upper(#[trigger] s@[t]),
                0 <= j <= k,
                !big ==> acc as int == position_of(s@.take(j as int)) && acc as int <= cols,
                big ==> position_of(s@.take(j as int)) > cols,
            decreases k - j,
        {
            let ch = s.get_char(j);
            let d = (ch as u32) - 64;
            proof {
                let t = s@.take(j as int);
                let u = s@.take(j as int + 1);
                assert(u.drop_last() =~= t);
                assert(u.last() == s@[j as int]);
                assert(position_of(u) == position_of(t) * 26 + (ch as int - 64));
            }
            if big {
                proof {
                    let t = s@.take(j as int);
                    let u = s@.take(j as int + 1);
                    assert(position_of(t) * 26 >= position_of(t));
                    assert(position_of(u) > cols);
                }
            } else {
                let wide = (acc as u128) * 26 + (d as u128);
                if wide > cols as u128 {
                    big = true;
                } else {
                    acc = wide as u64;
                }
            }
            j = j + 1;
        }
        if big {
            proof {
                assert(position_of(label) > cols);
            }
            return None;
        }
        proof {
            assert(valid_label(label)) by {
                assert(forall|t: int| 0 <= t < label.len() ==> is_upper(#[trigger] label[t]));
            }
            lemma_position_positive(label);
        }
        let col = (acc as usize) - 1;
        let rest = s.substring_char(k, len).to_owned();
        proof {
            assert(rest@ =~= s@.skip(k as int));
        }
        match self.find_row_index(&rest) {
            Some(ri) => {
                proof {
                    lemma_find_first_bounds(self.rows.deep_view(), rest@, 0);
                }
                Some((ri, col))
            },
            None => None,
        }
    }

    /// Resolves one cell, using `marks` for cycle detection: the marks
    /// come back exactly as they went in, and the result is what the
    /// resolution semantics says for them.
    #[verifier::loop_isolation(false)]
    fn resolve(&self, marks: Vec<bool>, r: usize, c: usize) -> (res: (
        Vec<bool>,
        Result<Option<Value>, EvalError>,
    ))
        requires
            self.wf(),
            marks@.len() == self.grid@.len() * self.columns@.len(),
            r < self.grid@.len(),
            c < self.columns@.len(),
        ensures
            res.0@ == marks@,
            res.1 == self.spec_resolve(marks@, r as int, c as int),
            res.1 matches Ok(Some(v)) ==> v.wf(),
        decreases count_unmarked(marks@),
    {
        let ghost m0 = marks@;
        let total_len = marks.len();
        let g = self.grid.len();
        let cols = self.columns.len();
        proof {
            assert(r * cols + c < m0.len()) by (nonlinear_arith)
                requires
                    r < self.grid@.len(),
                    c < cols,
                    m0.len() == self.grid@.len() * cols,
            ;
        }
        let i = r * cols + c;
        if marks[i] {
            return (marks, Err(EvalError::CircularReference));
        }
        let mut m = marks;
        m.set(i, true);
        let ghost v2 = m0.update(i as int, true);
        proof {
            lemma_count_unmarked_set(m0, i as int);
        }
        let row = &self.grid[r];
        let outcome: Result<Option<Value>, EvalError> = match &row[c] {
            Option::None => Ok(None),
            Option::Some(Cell::Empty) => Ok(None),
            Option::Some(Cell::Value(val)) => Ok(Some(*val)),
            Option::Some(Cell::Expression(e)) => {
                let ops = e.operands_vec();
                let ghost opsq = e.operands();
                let mut vals: Vec<Value> = Vec::new();
                let mut failed: Option<EvalError> = None;
                let mut idx: usize = 0;
                while idx < ops.len() && failed.is_none()
                    invariant
                        self.wf(),
                        cols == self.columns@.len(),
                        r < self.grid@.len(),
                        c < cols,
                        m0.len() == self.grid@.len() * cols,
                        i == r * cols + c,
                        i < m0.len(),
                        v2 == m0.update(i as int, true),
                        count_unmarked(v2) < count_unmarked(m0),
                        m@ == v2,
                        opsq == ops.deep_view(),
                        opsq.len() == ops@.len(),
                        0 <= idx <= ops@.len(),
                        forall|t: int| 0 <= t < vals@.len() ==> (#[trigger] vals@[t]).wf(),
                        failed is None ==> self.resolve_operands(v2, opsq, 0) == (
                        match self.resolve_operands(v2, opsq, idx as int) {
                            Ok(rest) => Ok::<Seq<Value>, EvalError>(vals@ + rest),
                            Err(e) => Err(e),
                        }),
                        failed matches Some(e) ==> self.resolve_operands(v2, opsq, 0) == Err::<
                            Seq<Value>,
                            EvalError,
                        >(e),
                    decreases ops@.len() - idx,
                {
                    let opstr = &ops[idx];
                    proof {
                        assert(opsq[idx as int] == ops@[idx as int]@);
                    }
                    match self.ref_lookup(opstr.as_str()) {
                        None => {
                            failed = Some(EvalError::UnresolvableReference);
                        },
                        Some((rr, cc)) => {
                            let (m2, res) = self.resolve(m, rr, cc);
                            m = m2;
                            match res {
                                Err(e) => {
                                    failed = Some(e);
                                },
                                Ok(None) => {
                                    failed = Some(EvalError::UnresolvableReference);
                                },
                                Ok(Some(val)) => {
                                    let ghost old_vals = vals@;
                                    vals.push(val);
                                    proof {
                                        match self.resolve_operands(v2, opsq, idx as int + 1) {
                                            Ok(rest) => {
                                                assert(old_vals + (seq![val] + rest) =~= vals@
                                                    + rest);
                                            },
                                            Err(_) => {},
                                        }
                                    }
                                },
                            }
                        },
                    }
                    idx = idx + 1;
                }
                match failed {
                    Some(e) => Err(e),
                    None => {
                        proof {
                            assert(self.resolve_operands(v2, opsq, opsq.len() as int) == Ok::<
                                Seq<Value>,
                                EvalError,
                            >(Seq::empty()));
                            assert(vals@ + Seq::<Value>::empty() =~= vals@);
                        }
                        let folded = match e {
                            Expression::Add(_) => e.sum(&vals),
                            Expression::Sub(_) => e.difference(&vals),
                        };
                        match folded {
                            Ok(val) => Ok(Some(val)),
                            Err(err) => Err(err),
                        }
                    },
                }
            },
            Option::Some(Cell::Formula(f)) => {
                let fb = self.ref_lookup(f.begin().as_str());
                let fe = self.ref_lookup(f.end().as_str());
                match (fb, fe) {
                    (Some((br, bc)), Some((er, ec))) => {
                        let r_lo = if br <= er {
                            br
                        } else {
                            er
                        };
                        let r_hi = if br <= er {
                            er
                        } else {
                            br
                        };
                        let c_lo = if bc <= ec {
                            bc
                        } else {
                            ec
                        };
                        let c_hi = if bc <= ec {
                            ec
                        } else {
                            bc
                        };
                        let n_r = r_hi - r_lo + 1;
                        let n_c = c_hi - c_lo + 1;
                        proof {
                            assert(n_r * n_c <= self.grid@.len() * cols) by (nonlinear_arith)
                                requires
                                    0 < n_r <= self.grid@.len(),
                                    0 < n_c <= cols,
                            ;
                        }
                        let total = n_r * n_c;
                        let is_sum = match f {
                            Formula::Sum(_) => true,
                            Formula::Min(_) => false,
                        };
                        let ghost acc0: Option<Value> = if is_sum {
                            Some(Value::Int(0))
                        } else {
                            None
                        };
                        let mut acc: Option<Value> = if is_sum {
                            Some(Value::Int(0))
                        } else {
                            None
                        };
                        let mut failed: Option<EvalError> = None;
                        let mut k: usize = 0;
                        while k < total && failed.is_none()
                            invariant
                                self.wf(),
                                cols == self.columns@.len(),
                                r < self.grid@.len(),
                                c < cols,
                                m0.len() == self.grid@.len() * cols,
                                i == r * cols + c,
                                i < m0.len(),
                                v2 == m0.update(i as int, true),
                                count_unmarked(v2) < count_unmarked(m0),
                                m@ == v2,
                                0 < n_c,
                                0 < n_r,
                                r_lo + n_r <= self.grid@.len(),
                                c_lo + n_c <= cols,
                                total == n_r * n_c,
                                0 <= k <= total,
                                acc matches Some(a) ==> a.wf(),
                                is_sum ==> acc is Some,
                                failed is None ==> self.eval_range(
                                    v2,
                                    is_sum,
                                    r_lo as int,
                                    c_lo as int,
                                    n_r as int,
                                    n_c as int,
                                    0,
                                    acc0,
                                ) == self.eval_range(
                                    v2,
                                    is_sum,
                                    r_lo as int,
                                    c_lo as int,
                                    n_r as int,
                                    n_c as int,
                                    k as int,
                                    acc,
                                ),
                                failed matches Some(e) ==> self.eval_range(
                                    v2,
                                    is_sum,
                                    r_lo as int,
                                    c_lo as int,
                                    n_r as int,
                                    n_c as int,
                                    0,
                                    acc0,
                                ) == Err::<Option<Value>, EvalError>(e),
                            decreases total - k,
                        {
                            proof {
                                vstd::arithmetic::div_mod::lemma_fundamental_div_mod(
                                    k as int,
                                    n_c as int,
                                );
                                assert((k as int) / (n_c as int) < n_r as int) by (nonlinear_arith)
                                    requires
                                        n_c as int >= 1,
                                        0 <= k as int,
                                        (k as int) < (n_r as int) * (n_c as int),
                                        k as int == ((k as int) / (n_c as int)) * (n_c as int) + (
                                        k as int) % (n_c as int),
                                        0 <= (k as int) % (n_c as int) < n_c as int,
                                ;
                            }
                            let rr = r_lo + k / n_c;
                            let cc = c_lo + k % n_c;
                            let (m2, res) = self.resolve(m, rr, cc);
                            m = m2;
                            match res {
                                Err(_) => {
                                    failed = Some(EvalError::InvalidRangeMember);
                                },
                                Ok(None) => {},
                                Ok(Some(val)) => {
                                    if is_sum {
                                        let a = match acc {
                                            Some(a) => a,
                                            None => vstd::pervasive::unreached(),
                                        };
                                        match a.checked_add(val) {
                                            Some(nv) => {
                                                acc = Some(nv);
                                            },
                                            None => {
                                                failed = Some(EvalError::Overflow);
                                            },
                                        }
                                    } else {
                                        acc = Some(
                                            match acc {
                                                Some(a) => a.num_min(val),
                                                None => val,
                                            },
                                        );
                                    }
                                },
                            }
                            k = k + 1;
                        }
                        match failed {
                            Some(e) => Err(e),
                            None => match acc {
                                Some(x) => Ok(Some(x)),
                                None => Err(EvalError::EmptyRange),
                            },
                        }
                    },
                    _ => Err(EvalError::UnresolvableReference),
                }
            },
        };
        m.set(i, false);
        proof {
            assert(m@ =~= m0);
        }
        (m, outcome)
    }

    /// Evaluates the whole sheet into a rendered grid of width 8: one
    /// generated column label per column, the row ids as row labels, and
    /// in every slot the resolved cell's display text, the empty text
    /// for a blank, or that cell's error marker. Each cell's failure is
    /// local: it never stops the pass.
    pub fn compute(&self) -> (res: Result<TableOutput, StructuralError>)
        requires
            self.wf(),
        ensures
            res is Ok,
            res matches Ok(out) ==> out.wf() && out.cell_width == 8
                && out.row_names.deep_view() == self.rows.deep_view()
                && out.col_names.deep_view().len() == self.columns@.len() && (forall|j: int|
                0 <= j < self.columns@.len() ==> out.col_names.deep_view()[j] == label_of(
                    (j + 1) as nat,
                )) && out.rows@.len() == self.rows@.len() && (forall|i: int, j: int|
                0 <= i < self.rows@.len() && 0 <= j < self.columns@.len() ==> (
                #[trigger] out.rows@[i]@[j])@ == self.result_text(i, j)),
    {
        let mut out = TableOutput::new(8);
        let cols = self.columns.len();
        let rows_n = self.rows.len();
        let mut j: usize = 0;
        while j < cols
            invariant
                out.wf(),
                out.cell_width == 8,
                out.row_names@.len() == 0,
                out.rows@.len() == 0,
                0 <= j <= cols,
                out.col_names@.len() == j,
                forall|t: int|
                    0 <= t < j ==> out.col_names.deep_view()[t] == label_of((t + 1) as nat),
            decreases cols - j,
        {
            let label = match base10_to_base26(j + 1) {
                Ok(l) => l,
                Err(_) => vstd::pervasive::unreached(),
            };
            out.add_col(label);
            j = j + 1;
        }
        let mut i: usize = 0;
        while i < rows_n
            invariant
                out.wf(),
                out.cell_width == 8,
                cols == self.columns@.len(),
                rows_n == self.rows@.len(),
                out.col_names@.len() == cols,
                forall|t: int|
                    0 <= t < cols ==> out.col_names.deep_view()[t] == label_of((t + 1) as nat),
                0 <= i <= rows_n,
                out.row_names@.len() == i,
                out.rows@.len() == i,
                out.row_names.deep_view() =~= self.rows.deep_view().take(i as int),
            decreases rows_n - i,
        {
            out.add_row(self.rows[i].clone());
            proof {
                assert(self.rows.deep_view()[i as int] == self.rows@[i as int]@);
                assert(out.row_names.deep_view() =~= self.rows.deep_view().take(i as int + 1));
            }
            i = i + 1;
        }
        proof {
            assert(out.row_names.deep_view() =~= self.rows.deep_view());
        }
        let mut marks: Vec<bool> = Vec::new();
        let mut t: usize = 0;
        while t < rows_n
            invariant
                0 <= t <= rows_n,
                cols == self.columns@.len(),
                rows_n == self.rows@.len(),
                marks@.len() == t * cols,
                forall|x: int| 0 <= x < marks@.len() ==> !(#[trigger] marks@[x]),
            decreases rows_n - t,
        {
            let mut u: usize = 0;
            proof {
                assert((t + 1) * cols == t * cols + cols) by (nonlinear_arith);
                assert(t * cols + cols <= rows_n * cols) by (nonlinear_arith)
                    requires
                        t + 1 <= rows_n,
                        cols >= 0,
                ;
            }
            while u < cols
                invariant
                    0 <= u <= cols,
                    marks@.len() == t * cols + u,
                    forall|x: int| 0 <= x < marks@.len() ==> !(#[trigger] marks@[x]),
                decreases cols - u,
            {
                marks.push(false);
                u = u + 1;
            }
            t = t + 1;
        }
        proof {
            assert(marks@ =~= self.fresh_marks());
        }
        let mut i: usize = 0;
        while i < rows_n
            invariant
                self.wf(),
                out.wf(),
                out.cell_width == 8,
                cols == self.columns@.len(),
                rows_n == self.rows@.len() == self.grid@.len(),
                out.col_names@.len() == cols,
                forall|t2: int|
                    0 <= t2 < cols ==> out.col_names.deep_view()[t2] == label_of((t2 + 1) as nat),
                out.row_names@.len() == rows_n,
                out.rows@.len() == rows_n,
                out.row_names.deep_view() =~= self.rows.deep_view(),
                marks@ == self.fresh_marks(),
                marks@.len() == self.grid@.len() * cols,
                0 <= i <= rows_n,
                forall|a: int, b: int|
                    0 <= a < i && 0 <= b < cols ==> (#[trigger] out.rows@[a]@[b])@
                        == self.result_text(a, b),
            decreases rows_n - i,
        {
            let mut jj: usize = 0;
            while jj < cols
                invariant
                    self.wf(),
                    out.wf(),
                    out.cell_width == 8,
                    cols == self.columns@.len(),
                    rows_n == self.rows@.len() == self.grid@.len(),
                    out.col_names@.len() == cols,
                    forall|t2: int|
                        0 <= t2 < cols ==> out.col_names.deep_view()[t2] == label_of(
                            (t2 + 1) as nat,
                        ),
                    out.row_names@.len() == rows_n,
                    out.rows@.len() == rows_n,
                    out.row_names.deep_view() =~= self.rows.deep_view(),
                    marks@ == self.fresh_marks(),
                    marks@.len() == self.grid@.len() * cols,
                    0 <= i < rows_n,
                    0 <= jj <= cols,
                    forall|a: int, b: int|
                        0 <= a < i && 0 <= b < cols ==> (#[trigger] out.rows@[a]@[b])@
                            == self.result_text(a, b),
                    forall|b: int|
                        0 <= b < jj ==> (#[trigger] out.rows@[i as int]@[b])@ == self.result_text(
                            i as int,
                            b,
                        ),
                decreases cols - jj,
            {
                let (m2, res) = self.resolve(marks, i, jj);
                marks = m2;
                let text = match res {
                    Ok(Some(val)) => val.to_text(),
                    Ok(None) => String::new(),
                    Err(e) => e.marker(),
                };
                proof {
                    assert(text@ == self.result_text(i as int, jj as int));
                }
                let ins = out.insert_cell(text, i, jj);
                proof {
                    assert(ins is Ok);
                }
                jj = jj + 1;
            }
            i = i + 1;
        }
        Ok(out)
    }
}

/// A cell whose expression's first operand names the cell itself cannot
/// be resolved: evaluation surfaces a circular reference for that cell,
/// and — resolution being a total function — never hangs on it.
pub proof fn lemma_self_reference_circular(t: Table, r: int, c: int)
    requires
        t.wf(),
        0 <= r < t.grid@.len(),
        0 <= c < t.columns@.len(),
        t.cell_at(r, c) matches CellText::Expr { add, ops } && ops.len() > 0 && t.resolve_ref(
            ops[0],
        ) == Some((r, c)),
    ensures
        t.spec_resolve(t.fresh_marks(), r, c) == Err::<Option<Value>, EvalError>(
            EvalError::CircularReference,
        ),
{
    let v = t.fresh_marks();
    let cols = t.columns@.len() as int;
    let i = r * cols + c;
    assert(v.len() == t.grid@.len() * cols);
    assert(0 <= i < v.len()) by (nonlinear_arith)
        requires
            0 <= r < t.grid@.len(),
            0 <= c < cols,
            v.len() == t.grid@.len() * cols,
            i == r * cols + c,
    ;
    assert(!v[i]);
    let v2 = v.update(i, true);
    assert(v2[i]);
    match t.cell_at(r, c) {
        CellText::Expr { add, ops } => {
            assert(t.spec_resolve(v2, r, c) == Err::<Option<Value>, EvalError>(
                EvalError::CircularReference,
            ));
            assert(t.resolve_operands(v2, ops, 0) == Err::<Seq<Value>, EvalError>(
                EvalError::CircularReference,
            ));
        },
        _ => {
            assert(false);
        },
    }
}

/// The first index at or after `i` whose element equals `id`, or -1.
pub open spec fn find_first(items: Seq<Seq<char>>, id: Seq<char>, i: int) -> int
    decreases items.len() - i when 0 <= i <= items.len()
{
    if i >= items.len() {
        -1
    } else if items[i] == id {
        i
    } else {
        find_first(items, id, i + 1)
    }
}

/// A found index lies within the sequence and holds the id.
pub proof fn lemma_find_first_bounds(items: Seq<Seq<char>>, id: Seq<char>, i: int)
    requires
        0 <= i <= items.len(),
    ensures
        find_first(items, id, i) == -1 || (i <= find_first(items, id, i) < items.len()
            && items[find_first(items, id, i)] == id),
    decreases items.len() - i,
{
    if i < items.len() && items[i] != id {
        lemma_find_first_bounds(items, id, i + 1);
    }
}

} // verus!

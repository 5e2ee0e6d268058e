use vstd::prelude::*;
use crate::strutil::{push_char, push_spaces, spaces};
use crate::numtext::{
    int_str, dec_str, is_int_text, int_text_val, parse_i64, push_i64, push_u64,
};
use crate::table_error::StructuralError;

verus! {

/// Division by ten rounding toward zero, as machine division does.
pub open spec fn div10(v: int) -> int {
    if v >= 0 {
        v / 10
    } else {
        -((-v) / 10)
    }
}

proof fn lemma_div10_shrinks(v: int)
    requires
        v > 9 || v < -9,
    ensures
        (if div10(v) < 0 {
            -div10(v)
        } else {
            div10(v)
        }) < (if v < 0 {
            -v
        } else {
            v
        }),
        -(if v < 0 {
            -v
        } else {
            v
        }) <= div10(v) <= (if v < 0 {
            -v
        } else {
            v
        }),
{
    let a = if v < 0 {
        -v
    } else {
        v
    };
    vstd::arithmetic::div_mod::lemma_fundamental_div_mod(a, 10);
    let q = a / 10;
    let r = a % 10;
    assert(a == 10 * q + r);
    assert(0 <= r < 10);
    assert(q < a && q >= 1) by (nonlinear_arith)
        requires
            a == 10 * q + r,
            0 <= r < 10,
            a >= 10,
    ;
}

/// The scientific compression of an integer: the leading digit (signed)
/// and the power of ten, found by dividing by ten until one digit is
/// left.
pub open spec fn reduced(v: int) -> (int, nat)
    decreases (if v < 0 {
        -v
    } else {
        v
    }) via reduced_decreases
{
    if -9 <= v <= 9 {
        (v, 0)
    } else {
        let r = reduced(div10(v));
        (r.0, r.1 + 1)
    }
}

#[via_fn]
proof fn reduced_decreases(v: int) {
    if !(-9 <= v <= 9) {
        lemma_div10_shrinks(v);
    }
}

/// The power in the compression grows only as fast as the number of
/// digits: below `10^(k+1)` at most `k` divisions are needed.
proof fn lemma_reduced_bound(v: int, k: nat)
    requires
        -crate::value::pow10((k + 1) as nat) < v < crate::value::pow10((k + 1) as nat),
    ensures
        reduced(v).1 <= k,
    decreases k,
{
    if -9 <= v <= 9 {
    } else {
        lemma_div10_shrinks(v);
        let a = if v < 0 {
            -v
        } else {
            v
        };
        let b = if div10(v) < 0 {
            -div10(v)
        } else {
            div10(v)
        };
        assert(k >= 1) by {
            crate::value::lemma_pow10_pos(k as nat);
            if k == 0 {
                assert(crate::value::pow10(1) == 10 * crate::value::pow10(0));
            }
        }
        let p = crate::value::pow10(k as nat) as int;
        assert(crate::value::pow10((k + 1) as nat) == 10 * p);
        vstd::arithmetic::div_mod::lemma_fundamental_div_mod(a, 10);
        assert(b == a / 10);
        assert(b < p) by (nonlinear_arith)
            requires
                a == 10 * b + a % 10,
                0 <= a % 10 < 10,
                a < 10 * p,
        ;
        lemma_reduced_bound(div10(v), (k - 1) as nat);
    }
}

/// The compressed display of an integer: its leading digit, `*10^`, and
/// the power of ten.
pub open spec fn compress_str(v: int) -> Seq<char> {
    int_str(reduced(v).0) + seq!['*', '1', '0', '^'] + dec_str(reduced(v).1)
}

/// Left-pads `cell` with spaces up to width `w`; wider text is kept as
/// it stands.
pub open spec fn padded(cell: Seq<char>, w: nat) -> Seq<char> {
    if cell.len() >= w {
        cell
    } else {
        spaces((w - cell.len()) as nat) + cell
    }
}

/// What one cell renders as at width `w`: text of the right width is
/// kept, shorter text is left-padded, and longer text is compressed to
/// `<digit>*10^<power>` notation when it is an integer literal that
/// fits, else cut to the first `w` characters. The compressed form is
/// padded, or itself cut when even it overflows.
pub open spec fn trim_spec(cell: Seq<char>, w: nat) -> Seq<char> {
    if cell.len() <= w {
        padded(cell, w)
    } else if is_int_text(cell) && i64::MIN <= int_text_val(cell) <= i64::MAX {
        let c = compress_str(int_text_val(cell));
        if c.len() <= w {
            spaces((w - c.len()) as nat) + c
        } else {
            c.take(w as int)
        }
    } else {
        cell.take(w as int)
    }
}

/// The header cells, comma-prefixed and padded, after the leading `0`.
pub open spec fn join_padded(names: Seq<Seq<char>>, i: int, w: nat) -> Seq<char>
    decreases names.len() - i when 0 <= i <= names.len()
{
    if i >= names.len() {
        Seq::empty()
    } else {
        seq![','] + padded(names[i], w) + join_padded(names, i + 1, w)
    }
}

/// The cells of one data row, comma-prefixed and width-formatted, after
/// the row label.
pub open spec fn join_trimmed(cells: Seq<Seq<char>>, i: int, w: nat) -> Seq<char>
    decreases cells.len() - i when 0 <= i <= cells.len()
{
    if i >= cells.len() {
        Seq::empty()
    } else {
        seq![','] + trim_spec(cells[i], w) + join_trimmed(cells, i + 1, w)
    }
}

/// The rendered result table: row and column labels and the computed
/// cell texts, formatted to a fixed cell width.
pub struct TableOutput {
    pub row_names: Vec<String>,
    pub col_names: Vec<String>,
    pub rows: Vec<Vec<String>>,
    pub cell_width: usize,
}

impl TableOutput {
    /// A well-formed output grid: one row of cells per row name, one
    /// cell per column name in each.
    pub open spec fn wf(self) -> bool {
        &&& self.rows@.len() == self.row_names@.len()
        &&& forall|i: int|
            0 <= i < self.rows@.len() ==> (#[trigger] self.rows@[i])@.len()
                == self.col_names@.len()
    }

    /// The fixed cell width.
    pub open spec fn w(self) -> nat {
        self.cell_width as nat
    }

    /// The header line: `0`, then every column label comma-prefixed and
    /// padded.
    pub open spec fn header_spec(self) -> Seq<char> {
        seq!['0'] + join_padded(self.col_names.deep_view(), 0, self.w())
    }

    /// One data line: the row label, then every cell comma-prefixed and
    /// width-formatted.
    pub open spec fn row_spec(self, i: int) -> Seq<char>
        recommends
            0 <= i < self.rows@.len(),
    {
        self.row_names@[i]@ + join_trimmed(self.rows@[i].deep_view(), 0, self.w())
    }

    /// The data lines from row `i` on, each closed by a newline.
    pub open spec fn lines_spec(self, i: int) -> Seq<char>
        decreases self.rows@.len() - i when 0 <= i <= self.rows@.len()
    {
        if i >= self.rows@.len() {
            Seq::empty()
        } else {
            self.row_spec(i) + seq!['\n'] + self.lines_spec(i + 1)
        }
    }

    /// The whole table text: the header line and every data line, each
    /// closed by a newline.
    pub open spec fn text_spec(self) -> Seq<char> {
        self.header_spec() + seq!['\n'] + self.lines_spec(0)
    }

    /// An empty output grid with the given cell width.
    pub fn new(cell_width: usize) -> (r: TableOutput)
        ensures
            r.wf(),
            r.row_names@.len() == 0,
            r.col_names@.len() == 0,
            r.rows@.len() == 0,
            r.cell_width == cell_width,
    {
        TableOutput {
            row_names: Vec::new(),
            col_names: Vec::new(),
            rows: Vec::new(),
            cell_width,
        }
    }

    /// Appends one row: its label, and an empty cell under every column.
    pub fn add_row(&mut self, row_name: String)
        requires
            old(self).wf(),
        ensures
            final(self).wf(),
            final(self).cell_width == old(self).cell_width,
            final(self).col_names == old(self).col_names,
            final(self).row_names.deep_view() =~= old(self).row_names.deep_view().push(row_name@),
            final(self).rows@.len() == old(self).rows@.len() + 1,
            forall|i: int|
                0 <= i < old(self).rows@.len() ==> final(self).rows@[i] == old(self).rows@[i],
            forall|j: int|
                0 <= j < old(self).col_names@.len() ==> (#[trigger] final(self).rows@[old(self).rows@.len() as int]@[j])@
                    == Seq::<char>::empty(),
    {
        self.row_names.push(row_name);
        let mut new_row: Vec<String> = Vec::new();
        let cols = self.col_names.len();
        let mut j: usize = 0;
        while j < cols
            invariant
                0 <= j <= cols,
                new_row@.len() == j,
                forall|k: int| 0 <= k < j ==> (#[trigger] new_row@[k])@ == Seq::<char>::empty(),
            decreases cols - j,
        {
            new_row.push(String::new());
            j = j + 1;
        }
        self.rows.push(new_row);
    }

    /// Appends one column: its label, and an empty cell at the end of
    /// every row.
    pub fn add_col(&mut self, col_name: String)
        requires
            old(self).wf(),
        ensures
            final(self).wf(),
            final(self).cell_width == old(self).cell_width,
            final(self).row_names == old(self).row_names,
            final(self).col_names.deep_view() =~= old(self).col_names.deep_view().push(col_name@),
            final(self).rows@.len() == old(self).rows@.len(),
            forall|i: int, j: int|
                0 <= i < old(self).rows@.len() && 0 <= j < old(self).col_names@.len() ==> (
                #[trigger] final(self).rows@[i]@[j]) == old(self).rows@[i]@[j],
            forall|i: int|
                0 <= i < old(self).rows@.len() ==> (#[trigger] final(self).rows@[i]@[old(self).col_names@.len() as int])@
                    == Seq::<char>::empty(),
    {
        self.col_names.push(col_name);
        let n = self.rows.len();
        let mut i: usize = 0;
        while i < n
            invariant
                old(self).wf(),
                0 <= i <= n,
                n == self.rows@.len() == old(self).rows@.len(),
                self.row_names == old(self).row_names,
                self.col_names@ == old(self).col_names@.push(col_name),
                self.cell_width == old(self).cell_width,
                forall|k: int| i <= k < n ==> (#[trigger] self.rows@[k]) == old(self).rows@[k],
                forall|k: int|
                    0 <= k < i ==> (#[trigger] self.rows@[k])@.len() == old(self).rows@[k]@.len()
                        + 1,
                forall|k: int, j: int|
                    0 <= k < i && 0 <= j < old(self).rows@[k]@.len() ==> (#[trigger] self.rows@[k]@[j])
                        == old(self).rows@[k]@[j],
                forall|k: int|
                    0 <= k < i ==> (#[trigger] self.rows@[k]@[old(self).rows@[k]@.len() as int])@
                        == Seq::<char>::empty(),
            decreases n - i,
        {
            let mut row = self.rows.remove(i);
            row.push(String::new());
            self.rows.insert(i, row);
            i = i + 1;
        }
    }

    /// Stores one computed cell text at the given position; indices
    /// beyond the declared rows or columns are refused and leave the
    /// grid unchanged.
    pub fn insert_cell(&mut self, cell: String, row_index: usize, col_index: usize) -> (r: Result<
        (),
        StructuralError,
    >)
        requires
            old(self).wf(),
        ensures
            final(self).wf(),
            r matches Err(e) ==> e == StructuralError::IndexOutOfBounds
                && *final(self) == *old(self)
                && (row_index >= old(self).row_names@.len() || col_index
                >= old(self).col_names@.len()),
            r is Ok <==> row_index < old(self).row_names@.len() && col_index
                < old(self).col_names@.len(),
            r is Ok ==> final(self).cell_width == old(self).cell_width && final(self).row_names
                == old(self).row_names && final(self).col_names == old(self).col_names
                && final(self).rows@.len() == old(self).rows@.len() && (forall|i: int, j: int|
                0 <= i < old(self).rows@.len() && 0 <= j < old(self).col_names@.len() && !(i
                    == row_index && j == col_index) ==> (#[trigger] final(self).rows@[i]@[j])
                    == old(self).rows@[i]@[j])
                && final(self).rows@[row_index as int]@[col_index as int] == cell,
    {
        if row_index >= self.row_names.len() || col_index >= self.col_names.len() {
            return Err(StructuralError::IndexOutOfBounds);
        }
        let mut row = self.rows.remove(row_index);
        row.set(col_index, cell);
        self.rows.insert(row_index, row);
        proof {
            assert(self.rows@ =~= old(self).rows@.update(
                row_index as int,
                self.rows@[row_index as int],
            ));
        }
        Ok(())
    }

    /// Left-pads `cell` with spaces up to the cell width; wider text is
    /// returned unchanged.
    pub fn fill_with_white_space(&self, cell: &str) -> (r: String)
        ensures
            r@ == padded(cell@, self.w()),
    {
        let len = cell.unicode_len();
        let mut out = String::new();
        if len < self.cell_width {
            push_spaces(&mut out, self.cell_width - len);
        }
        out.append(cell);
        proof {
            assert(out@ =~= padded(cell@, self.w()));
        }
        out
    }

    /// Compresses over-wide cell text: an integer literal that fits is
    /// rewritten as `<digit>*10^<power>` and padded, any other text is
    /// cut to the cell width.
    pub fn reduce_cell_length(&self, cell: &str) -> (r: String)
        requires
            cell@.len() > self.w(),
        ensures
            r@ == trim_spec(cell@, self.w()),
    {
        match parse_i64(cell) {
            Some(v) => {
                proof {
                    crate::value::lemma_pow10_18();
                    assert(crate::value::pow10(19) == 10 * crate::value::pow10(18));
                    lemma_reduced_bound(v as int, 18);
                }
                let (lead, power) = Self::reduce_digits(v);
                let mut c = String::new();
                push_i64(&mut c, lead);
                c.append("*10^");
                proof {
                    reveal_strlit("*10^");
                    assert("*10^"@ =~= seq!['*', '1', '0', '^']);
                }
                push_u64(&mut c, power as u64);
                proof {
                    assert(c@ =~= compress_str(v as int));
                }
                let clen = c.as_str().unicode_len();
                if clen <= self.cell_width {
                    let mut out = String::new();
                    push_spaces(&mut out, self.cell_width - clen);
                    out.append(c.as_str());
                    proof {
                        assert(out@ =~= trim_spec(cell@, self.w()));
                    }
                    out
                } else {
                    let cut = c.as_str().substring_char(0, self.cell_width).to_owned();
                    proof {
                        assert(cut@ =~= trim_spec(cell@, self.w()));
                    }
                    cut
                }
            },
            None => {
                let cut = cell.substring_char(0, self.cell_width).to_owned();
                proof {
                    assert(cut@ =~= trim_spec(cell@, self.w()));
                }
                cut
            },
        }
    }

    /// Divides until a single leading digit is left, counting the power
    /// of ten.
    fn reduce_digits(v0: i64) -> (r: (i64, u32))
        ensures
            r.0 as int == reduced(v0 as int).0,
            r.1 as nat == reduced(v0 as int).1,
    {
        proof {
            crate::value::lemma_pow10_18();
            assert(crate::value::pow10(19) == 10 * crate::value::pow10(18));
            lemma_reduced_bound(v0 as int, 18);
        }
        let mut v = v0;
        let mut p: u32 = 0;
        while v > 9 || v < -9
            invariant
                reduced(v as int).0 == reduced(v0 as int).0,
                reduced(v as int).1 + p == reduced(v0 as int).1,
                reduced(v0 as int).1 <= 18,
            decreases (if v < 0 {
                -(v as int)
            } else {
                v as int
            }),
        {
            proof {
                lemma_div10_shrinks(v as int);
            }
            v = v / 10;
            p = p + 1;
        }
        (v, p)
    }

    /// Formats one cell text to the cell width: kept at the right width,
    /// left-padded when shorter, compressed or cut when longer.
    pub fn trim_length(&self, cell: &str) -> (r: String)
        ensures
            r@ == trim_spec(cell@, self.w()),
    {
        let len = cell.unicode_len();
        if len <= self.cell_width {
            self.fill_with_white_space(cell)
        } else {
            self.reduce_cell_length(cell)
        }
    }

    /// The header line: `0`, then every column label comma-prefixed and
    /// padded to the cell width.
    pub fn header_to_string(&self) -> (r: String)
        ensures
            r@ == self.header_spec(),
    {
        let ghost names = self.col_names.deep_view();
        let mut out = String::new();
        push_char(&mut out, '0');
        let n = self.col_names.len();
        let mut i: usize = 0;
        proof {
            assert(out@ =~= seq!['0']);
        }
        while i < n
            invariant
                0 <= i <= n == self.col_names@.len(),
                names == self.col_names.deep_view(),
                out@ + join_padded(names, i as int, self.w()) == self.header_spec(),
            decreases n - i,
        {
            proof {
                assert(names[i as int] == self.col_names@[i as int]@);
            }
            push_char(&mut out, ',');
            let padded_name = self.fill_with_white_space(self.col_names[i].as_str());
            out.append(padded_name.as_str());
            proof {
                assert(join_padded(names, i as int, self.w()) == seq![','] + padded(
                    names[i as int],
                    self.w(),
                ) + join_padded(names, i as int + 1, self.w()));
                assert(out@ + join_padded(names, i as int + 1, self.w()) =~= self.header_spec());
            }
            i = i + 1;
        }
        proof {
            assert(out@ =~= self.header_spec());
        }
        out
    }

    /// One data line: the row label, then every cell of that row,
    /// comma-prefixed and width-formatted. Nothing for an index beyond
    /// the rows.
    pub fn row_to_string(&self, row_index: usize) -> (r: Option<String>)
        requires
            self.wf(),
        ensures
            r is Some <==> row_index < self.row_names@.len(),
            r matches Some(line) ==> line@ == self.row_spec(row_index as int),
    {
        if row_index >= self.row_names.len() {
            return None;
        }
        let ghost cells = self.rows@[row_index as int].deep_view();
        let mut out = self.row_names[row_index].clone();
        let row = &self.rows[row_index];
        let n = row.len();
        let mut j: usize = 0;
        while j < n
            invariant
                self.wf(),
                row_index < self.row_names@.len(),
                row == self.rows@[row_index as int],
                0 <= j <= n == row@.len(),
                cells == row.deep_view(),
                out@ + join_trimmed(cells, j as int, self.w()) == self.row_spec(row_index as int),
            decreases n - j,
        {
            proof {
                assert(cells[j as int] == row@[j as int]@);
            }
            push_char(&mut out, ',');
            let t = self.trim_length(row[j].as_str());
            out.append(t.as_str());
            proof {
                assert(join_trimmed(cells, j as int, self.w()) == seq![','] + trim_spec(
                    cells[j as int],
                    self.w(),
                ) + join_trimmed(cells, j as int + 1, self.w()));
                assert(out@ + join_trimmed(cells, j as int + 1, self.w()) =~= self.row_spec(
                    row_index as int,
                ));
            }
            j = j + 1;
        }
        proof {
            assert(out@ =~= self.row_spec(row_index as int));
        }
        Some(out)
    }

    /// The whole table text: the header line, then one line per row,
    /// each closed by a newline.
    pub fn to_text(&self) -> (r: String)
        requires
            self.wf(),
        ensures
            r@ == self.text_spec(),
    {
        let mut out = self.header_to_string();
        push_char(&mut out, '\n');
        let n = self.row_names.len();
        let mut i: usize = 0;
        proof {
            assert(out@ + self.lines_spec(0) =~= self.text_spec());
        }
        while i < n
            invariant
                self.wf(),
                0 <= i <= n == self.row_names@.len(),
                out@ + self.lines_spec(i as int) == self.text_spec(),
            decreases n - i,
        {
            let line = match self.row_to_string(i) {
                Some(line) => line,
                None => {
                    proof {
                        assert(false);
                    }
                    String::new()
                },
            };
            out.append(line.as_str());
            push_char(&mut out, '\n');
            proof {
                assert(self.lines_spec(i as int) == self.row_spec(i as int) + seq!['\n']
                    + self.lines_spec(i as int + 1));
                assert(out@ + self.lines_spec(i as int + 1) =~= self.text_spec());
            }
            i = i + 1;
        }
        proof {
            assert(out@ =~= self.text_spec());
        }
        out
    }
}


/// What one data line reads as depends only on the label and cell texts.
proof fn lemma_lines_equal(a: TableOutput, b: TableOutput, i: int)
    requires
        a.wf(),
        b.wf(),
        a.cell_width == b.cell_width,
        a.row_names.deep_view() == b.row_names.deep_view(),
        a.rows@.len() == b.rows@.len(),
        forall|t: int|
            0 <= t < a.rows@.len() ==> (#[trigger] a.rows@[t].deep_view()) == b.rows@[t].deep_view(),
        0 <= i <= a.rows@.len(),
    ensures
        a.lines_spec(i) == b.lines_spec(i),
    decreases a.rows@.len() - i,
{
    if i < a.rows@.len() {
        lemma_lines_equal(a, b, i + 1);
        assert(a.row_names@[i]@ == a.row_names.deep_view()[i]);
        assert(b.row_names@[i]@ == b.row_names.deep_view()[i]);
        assert(a.row_spec(i) == b.row_spec(i));
    }
}

/// Rendering is deterministic: it depends only on the labels, the cell
/// texts and the width, so two output grids holding the same texts
/// render the same table, and rendering one grid twice yields identical
/// text. Together with the evaluation contract, which pins the grid down
/// as a function of the sheet alone, computing and rendering a sheet
/// twice yields the same output both times.
pub proof fn lemma_render_deterministic(a: TableOutput, b: TableOutput)
    requires
        a.wf(),
        b.wf(),
        a.cell_width == b.cell_width,
        a.col_names.deep_view() == b.col_names.deep_view(),
        a.row_names.deep_view() == b.row_names.deep_view(),
        a.rows@.len() == b.rows@.len(),
        forall|t: int|
            0 <= t < a.rows@.len() ==> (#[trigger] a.rows@[t].deep_view()) == b.rows@[t].deep_view(),
    ensures
        a.text_spec() == b.text_spec(),
{
    lemma_lines_equal(a, b, 0);
}

} // verus!

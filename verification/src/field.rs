//! The field container and its cell-by-cell operations.

use vstd::prelude::*;

verus! {

/// The mathematical content of a field: the number of rows, and one sequence
/// of cells per column. `columns[i][j]` is the cell in row `j` of column `i`.
#[verifier::ext_equal]
pub struct FieldView<T> {
    pub rows: nat,
    pub columns: Seq<Seq<T>>,
}

impl<T> FieldView<T> {
    /// The number of columns.
    pub open spec fn cols(self) -> nat {
        self.columns.len()
    }

    /// Every column holds exactly `rows` cells.
    pub open spec fn wf(self) -> bool {
        forall|i: int| 0 <= i < self.columns.len() ==> (#[trigger] self.columns[i]).len() == self.rows
    }

    /// The cell in row `j` of column `i`.
    pub open spec fn at(self, j: int, i: int) -> T {
        self.columns[i][j]
    }

    /// Whether `(j, i)` names a cell of the field.
    pub open spec fn holds(self, j: int, i: int) -> bool {
        0 <= j < self.rows && 0 <= i < self.columns.len()
    }

    /// Both fields have the same number of rows and of columns.
    pub open spec fn same_shape<U>(self, other: FieldView<U>) -> bool {
        self.rows == other.rows && self.columns.len() == other.columns.len()
    }

    /// The field of the given shape whose every cell is `value`.
    pub open spec fn uniform(rows: nat, cols: nat, value: T) -> FieldView<T> {
        FieldView { rows, columns: Seq::new(cols, |i: int| Seq::new(rows, |j: int| value)) }
    }
}

impl<T> FieldView<(T, T)> {
    /// The grid over two axes: the cell in row `j` of column `i` pairs the
    /// `j`-th sample of the y-axis, first, with the `i`-th sample of the
    /// x-axis, second.
    pub open spec fn mesh(ys: Seq<T>, xs: Seq<T>) -> FieldView<(T, T)> {
        FieldView {
            rows: ys.len(),
            columns: Seq::new(xs.len(), |i: int| Seq::new(ys.len(), |j: int| (ys[j], xs[i]))),
        }
    }
}

/// `out` has the shape of `src`, and each of its cells is a value that `f`
/// may return for the cell of `src` at the same place.
pub open spec fn maps<T, U, F: Fn(&T) -> U>(f: F, src: FieldView<T>, out: FieldView<U>) -> bool {
    &&& out.wf()
    &&& out.same_shape(src)
    &&& forall|j: int, i: int| src.holds(j, i) ==> f.ensures((&src.at(j, i),), #[trigger] out.at(j, i))
}

/// `out` has the shape of `a`, and each of its cells is a value that `f` may
/// return for the cells of `a` and `b` at the same place.
pub open spec fn combines<T, U, V, F: Fn(&T, &U) -> V>(
    f: F,
    a: FieldView<T>,
    b: FieldView<U>,
    out: FieldView<V>,
) -> bool {
    &&& out.wf()
    &&& out.same_shape(a)
    &&& forall|j: int, i: int|
        a.holds(j, i) ==> f.ensures((&a.at(j, i), &b.at(j, i)), #[trigger] out.at(j, i))
}

/// A dense two-dimensional array of samples, stored column by column.
#[derive(Debug, PartialEq)]
pub struct Field<T> {
    rows: usize,
    columns: Vec<Vec<T>>,
}

impl<T> View for Field<T> {
    type V = FieldView<T>;

    closed spec fn view(&self) -> FieldView<T> {
        FieldView {
            rows: self.rows as nat,
            columns: Seq::new(
                self.columns@.len(),
                |i: int| Seq::new(self.rows as nat, |j: int| self.columns@[i]@[j]),
            ),
        }
    }
}

impl<T> Field<T> {
    #[verifier::type_invariant]
    spec fn inv(self) -> bool {
        forall|i: int| 0 <= i < self.columns@.len() ==> (#[trigger] self.columns@[i])@.len() == self.rows
    }

    /// The view of a field is well-formed, whatever the field.
    pub proof fn lemma_view_wf(self)
        ensures
            self@.wf(),
    {
    }

    /// Builds a field from its columns. Succeeds exactly when every column
    /// holds `rows` cells.
    pub fn from_columns(rows: usize, columns: Vec<Vec<T>>) -> (r: Option<Field<T>>)
        ensures
            r.is_some() <==> (forall|i: int| 0 <= i < columns@.len() ==> (#[trigger] columns@[i])@.len() == rows),
            r matches Some(f) ==> f@ == (FieldView { rows: rows as nat, columns: columns@.map_values(|c: Vec<T>| c@) }),
    {
        let mut i: usize = 0;
        while i < columns.len()
            invariant
                i <= columns@.len(),
                forall|k: int| 0 <= k < i ==> (#[trigger] columns@[k])@.len() == rows,
            decreases columns@.len() - i,
        {
            if columns[i].len() != rows {
                return None;
            }
            i += 1;
        }
        let f = Field { rows, columns };
        assert(f@.columns =~~= columns@.map_values(|c: Vec<T>| c@));
        Some(f)
    }

    /// The number of rows.
    pub fn nrows(&self) -> (n: usize)
        ensures
            n == self@.rows,
    {
        self.rows
    }

    /// The number of columns.
    pub fn ncols(&self) -> (n: usize)
        ensures
            n == self@.cols(),
    {
        self.columns.len()
    }

    /// The cell in row `j` of column `i`.
    pub fn cell(&self, j: usize, i: usize) -> (c: &T)
        requires
            self@.holds(j as int, i as int),
        ensures
            *c == self@.at(j as int, i as int),
    {
        proof {
            use_type_invariant(self);
        }
        &self.columns[i][j]
    }

    /// The cell in row `j` of column `i`, if the field has one there.
    pub fn get(&self, j: usize, i: usize) -> (r: Option<&T>)
        ensures
            r.is_some() <==> self@.holds(j as int, i as int),
            r matches Some(c) ==> *c == self@.at(j as int, i as int),
    {
        proof {
            use_type_invariant(self);
        }
        if i < self.columns.len() && j < self.rows {
            Some(&self.columns[i][j])
        } else {
            None
        }
    }

    /// Applies `f` to every cell and collects the results in a field of the
    /// same shape.
    pub fn map<U, F: Fn(&T) -> U>(&self, f: F) -> (r: Field<U>)
        requires
            forall|j: int, i: int| self@.holds(j, i) ==> f.requires((&#[trigger] self@.at(j, i),)),
        ensures
            maps(f, self@, r@),
    {
        proof {
            use_type_invariant(self);
        }
        let mut columns: Vec<Vec<U>> = Vec::new();
        let mut i: usize = 0;
        while i < self.columns.len()
            invariant
                i <= self.columns@.len(),
                self.inv(),
                forall|j: int, i: int| self@.holds(j, i) ==> f.requires((&#[trigger] self@.at(j, i),)),
                columns@.len() == i,
                forall|k: int| 0 <= k < i ==> (#[trigger] columns@[k])@.len() == self.rows,
                forall|k: int, j: int|
                    0 <= k < i && 0 <= j < self.rows ==> f.ensures(
                        (&self.columns@[k]@[j],),
                        #[trigger] columns@[k]@[j],
                    ),
            decreases self.columns@.len() - i,
        {
            let mut column: Vec<U> = Vec::new();
            let mut j: usize = 0;
            while j < self.rows
                invariant
                    i < self.columns@.len(),
                    j <= self.rows,
                    self.inv(),
                    forall|j: int, i: int| self@.holds(j, i) ==> f.requires((&#[trigger] self@.at(j, i),)),
                    column@.len() == j,
                    forall|l: int|
                        0 <= l < j ==> f.ensures((&self.columns@[i as int]@[l],), #[trigger] column@[l]),
                decreases self.rows - j,
            {
                assert(self@.holds(j as int, i as int));
                assert(self@.at(j as int, i as int) == self.columns@[i as int]@[j as int]);
                let cell = f(&self.columns[i][j]);
                column.push(cell);
                j += 1;
            }
            columns.push(column);
            i += 1;
        }
        let r = Field { rows: self.rows, columns };
        assert(maps(f, self@, r@));
        r
    }

    /// Combines two fields of one shape cell by cell: `f` is applied to each
    /// cell of `self` and the cell of `other` at the same place.
    pub fn combine<U, V, F: Fn(&T, &U) -> V>(&self, other: &Field<U>, f: F) -> (r: Field<V>)
        requires
            self@.same_shape(other@),
            forall|j: int, i: int|
                self@.holds(j, i) ==> f.requires((&#[trigger] self@.at(j, i), &other@.at(j, i))),
        ensures
            combines(f, self@, other@, r@),
    {
        proof {
            use_type_invariant(self);
            use_type_invariant(other);
        }
        let mut columns: Vec<Vec<V>> = Vec::new();
        let mut i: usize = 0;
        while i < self.columns.len()
            invariant
                i <= self.columns@.len(),
                self.inv(),
                other.inv(),
                self@.same_shape(other@),
                forall|j: int, i: int|
                    self@.holds(j, i) ==> f.requires((&#[trigger] self@.at(j, i), &other@.at(j, i))),
                columns@.len() == i,
                forall|k: int| 0 <= k < i ==> (#[trigger] columns@[k])@.len() == self.rows,
                forall|k: int, j: int|
                    0 <= k < i && 0 <= j < self.rows ==> f.ensures(
                        (&self.columns@[k]@[j], &other.columns@[k]@[j]),
                        #[trigger] columns@[k]@[j],
                    ),
            decreases self.columns@.len() - i,
        {
            let mut column: Vec<V> = Vec::new();
            let mut j: usize = 0;
            while j < self.rows
                invariant
                    i < self.columns@.len(),
                    j <= self.rows,
                    self.inv(),
                    other.inv(),
                    self@.same_shape(other@),
                    forall|j: int, i: int|
                        self@.holds(j, i) ==> f.requires(
                            (&#[trigger] self@.at(j, i), &other@.at(j, i)),
                        ),
                    column@.len() == j,
                    forall|l: int|
                        0 <= l < j ==> f.ensures(
                            (&self.columns@[i as int]@[l], &other.columns@[i as int]@[l]),
                            #[trigger] column@[l],
                        ),
                decreases self.rows - j,
            {
                assert(self@.holds(j as int, i as int));
                assert(self@.at(j as int, i as int) == self.columns@[i as int]@[j as int]);
                assert(other@.at(j as int, i as int) == other.columns@[i as int]@[j as int]);
                let cell = f(&self.columns[i][j], &other.columns[i][j]);
                column.push(cell);
                j += 1;
            }
            columns.push(column);
            i += 1;
        }
        let r = Field { rows: self.rows, columns };
        assert(combines(f, self@, other@, r@));
        r
    }
}

impl<T: Copy> Field<T> {
    /// The field of `ny` rows and `nx` columns whose every cell is `value`.
    pub fn uniform(ny: usize, nx: usize, value: T) -> (r: Field<T>)
        ensures
            r@ == FieldView::uniform(ny as nat, nx as nat, value),
    {
        let mut columns: Vec<Vec<T>> = Vec::new();
        let mut i: usize = 0;
        while i < nx
            invariant
                i <= nx,
                columns@.len() == i,
                forall|k: int| 0 <= k < i ==> (#[trigger] columns@[k])@ == Seq::new(ny as nat, |j: int| value),
            decreases nx - i,
        {
            let mut column: Vec<T> = Vec::new();
            let mut j: usize = 0;
            while j < ny
                invariant
                    j <= ny,
                    column@ == Seq::new(j as nat, |l: int| value),
                decreases ny - j,
            {
                column.push(value);
                j += 1;
            }
            columns.push(column);
            i += 1;
        }
        let r = Field { rows: ny, columns };
        assert(r@.columns =~~= FieldView::uniform(ny as nat, nx as nat, value).columns);
        r
    }
}

impl<T: Copy> Field<(T, T)> {
    /// The grid over two axes. The cell in row `j` of column `i` holds the
    /// `j`-th sample of `ys` first and the `i`-th sample of `xs` second, so a
    /// complex number made of the pair has the y-coordinate for its real part
    /// and the x-coordinate for its imaginary part.
    pub fn from_axes(ys: &Vec<T>, xs: &Vec<T>) -> (r: Field<(T, T)>)
        ensures
            r@ == FieldView::mesh(ys@, xs@),
    {
        let ny: usize = ys.len();
        let nx: usize = xs.len();
        let mut columns: Vec<Vec<(T, T)>> = Vec::new();
        let mut i: usize = 0;
        while i < nx
            invariant
                i <= nx,
                nx == xs@.len(),
                ny == ys@.len(),
                columns@.len() == i,
                forall|k: int|
                    0 <= k < i ==> (#[trigger] columns@[k])@ == Seq::new(
                        ny as nat,
                        |j: int| (ys@[j], xs@[k]),
                    ),
            decreases nx - i,
        {
            let x: T = xs[i];
            let mut column: Vec<(T, T)> = Vec::new();
            let mut j: usize = 0;
            while j < ny
                invariant
                    j <= ny,
                    ny == ys@.len(),
                    column@ == Seq::new(j as nat, |l: int| (ys@[l], x)),
                decreases ny - j,
            {
                column.push((ys[j], x));
                j += 1;
            }
            columns.push(column);
            i += 1;
        }
        let r = Field { rows: ny, columns };
        assert(r@.columns =~~= FieldView::mesh(ys@, xs@).columns);
        r
    }
}

/// A uniform field is the same everywhere: it is well-formed, every cell of
/// it is `value`, and so any two of its cells are equal.
pub proof fn lemma_uniform_is_constant<T>(rows: nat, cols: nat, value: T)
    ensures
        FieldView::uniform(rows, cols, value).wf(),
        FieldView::uniform(rows, cols, value).rows == rows,
        FieldView::uniform(rows, cols, value).cols() == cols,
        forall|j: int, i: int|
            0 <= j < rows && 0 <= i < cols ==> #[trigger] FieldView::uniform(rows, cols, value).at(
                j,
                i,
            ) == value,
{
}

/// The corners of a grid hold the ends of its axes: the first cell pairs the
/// first samples, the last cell the last samples.
pub proof fn lemma_mesh_corners<T>(ys: Seq<T>, xs: Seq<T>)
    requires
        ys.len() > 0,
        xs.len() > 0,
    ensures
        FieldView::mesh(ys, xs).wf(),
        FieldView::mesh(ys, xs).rows == ys.len(),
        FieldView::mesh(ys, xs).cols() == xs.len(),
        FieldView::mesh(ys, xs).at(0, 0) == (ys.first(), xs.first()),
        FieldView::mesh(ys, xs).at(ys.len() - 1, xs.len() - 1) == (ys.last(), xs.last()),
{
}

/// The step between neighbours of a grid is that of its axes, everywhere:
/// two cells of one row share the y-sample and hold the x-samples of their
/// columns, two cells of one column share the x-sample and hold the y-samples
/// of their rows.
pub proof fn lemma_mesh_neighbours<T>(ys: Seq<T>, xs: Seq<T>, j: int, i: int)
    requires
        0 <= j < ys.len(),
        0 <= i < xs.len(),
    ensures
        FieldView::mesh(ys, xs).at(j, i) == (ys[j], xs[i]),
        i + 1 < xs.len() ==> FieldView::mesh(ys, xs).at(j, i + 1) == (ys[j], xs[i + 1]),
        j + 1 < ys.len() ==> FieldView::mesh(ys, xs).at(j + 1, i) == (ys[j + 1], xs[i]),
{
}

/// Superposition commutes where the cell operation does: if `f` gives the
/// same value for two cells in either order, then combining two fields gives
/// the same field in either order.
pub proof fn lemma_combine_commutes<T, F: Fn(&T, &T) -> T>(
    f: F,
    a: FieldView<T>,
    b: FieldView<T>,
    ab: FieldView<T>,
    ba: FieldView<T>,
)
    requires
        a.wf(),
        b.wf(),
        a.same_shape(b),
        combines(f, a, b, ab),
        combines(f, b, a, ba),
        forall|x: T, y: T, u: T, v: T|
            #[trigger] f.ensures((&x, &y), u) && #[trigger] f.ensures((&y, &x), v) ==> u == v,
    ensures
        ab == ba,
{
    assert forall|i: int, j: int| 0 <= i < ab.columns.len() && 0 <= j < ab.columns[i].len() implies ab.columns[i][j]
        == ba.columns[i][j] by {
        assert(a.holds(j, i) && b.holds(j, i));
        assert(f.ensures((&a.at(j, i), &b.at(j, i)), ab.at(j, i)));
        assert(f.ensures((&b.at(j, i), &a.at(j, i)), ba.at(j, i)));
    }
    assert(ab =~~= ba);
}

/// Superposition is associative where the cell operation is: if `f` gives the
/// same value for three cells however they are grouped, then combining three
/// fields gives the same field however they are grouped.
pub proof fn lemma_combine_associates<T, F: Fn(&T, &T) -> T>(
    f: F,
    a: FieldView<T>,
    b: FieldView<T>,
    c: FieldView<T>,
    ab: FieldView<T>,
    bc: FieldView<T>,
    left: FieldView<T>,
    right: FieldView<T>,
)
    requires
        a.wf(),
        b.wf(),
        c.wf(),
        a.same_shape(b),
        b.same_shape(c),
        combines(f, a, b, ab),
        combines(f, ab, c, left),
        combines(f, b, c, bc),
        combines(f, a, bc, right),
        forall|x: T, y: T, z: T, xy: T, yz: T, l: T, r: T|
            #[trigger] f.ensures((&x, &y), xy) && #[trigger] f.ensures((&xy, &z), l)
                && #[trigger] f.ensures((&y, &z), yz) && #[trigger] f.ensures((&x, &yz), r) ==> l
                == r,
    ensures
        left == right,
{
    assert forall|i: int, j: int| 0 <= i < left.columns.len() && 0 <= j < left.columns[i].len() implies left.columns[i][j]
        == right.columns[i][j] by {
        assert(a.holds(j, i) && b.holds(j, i) && ab.holds(j, i));
        assert(f.ensures((&a.at(j, i), &b.at(j, i)), ab.at(j, i)));
        assert(f.ensures((&ab.at(j, i), &c.at(j, i)), left.at(j, i)));
        assert(f.ensures((&b.at(j, i), &c.at(j, i)), bc.at(j, i)));
        assert(f.ensures((&a.at(j, i), &bc.at(j, i)), right.at(j, i)));
    }
    assert(left =~~= right);
}

/// A uniform field of a neutral value is neutral: if `f` gives back its
/// second cell whenever its first is `zero`, then combining the uniform field
/// of `zero` with a field gives that field.
pub proof fn lemma_combine_neutral<T, F: Fn(&T, &T) -> T>(
    f: F,
    zero: T,
    a: FieldView<T>,
    out: FieldView<T>,
)
    requires
        a.wf(),
        combines(f, FieldView::uniform(a.rows, a.cols(), zero), a, out),
        forall|x: T, r: T| #[trigger] f.ensures((&zero, &x), r) ==> r == x,
    ensures
        out == a,
{
    let zeros = FieldView::uniform(a.rows, a.cols(), zero);
    assert forall|i: int, j: int| 0 <= i < out.columns.len() && 0 <= j < out.columns[i].len() implies out.columns[i][j]
        == a.columns[i][j] by {
        assert(zeros.holds(j, i));
        assert(f.ensures((&zeros.at(j, i), &a.at(j, i)), out.at(j, i)));
    }
    assert(out =~~= a);
}

} // verus!

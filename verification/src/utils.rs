//! Small helpers shared by the other modules.

use vstd::prelude::*;

verus! {

/// A copy of `v`, element by element.
pub fn copy_of<T: Copy>(v: &Vec<T>) -> (out: Vec<T>)
    ensures
        out@ == v@,
{
    let mut out: Vec<T> = Vec::new();
    let mut i: usize = 0;
    while i < v.len()
        invariant
            i <= v.len(),
            out@ == v@.take(i as int),
        decreases v.len() - i,
    {
        out.push(v[i]);
        i += 1;
    }
    out
}

/// The view of an optional string.
pub open spec fn opt_text(s: Option<String>) -> Option<Seq<char>> {
    match s {
        Some(t) => Some(t@),
        None => None,
    }
}

/// A copy of an optional string.
pub fn copy_opt_text(s: &Option<String>) -> (out: Option<String>)
    ensures
        opt_text(out) == opt_text(*s),
{
    match s {
        Some(t) => Some(t.clone()),
        None => None,
    }
}


/// All elements of the vectors of `vs`, one vector after the other.
pub open spec fn concat_all<T>(vs: Seq<Vec<T>>) -> Seq<T>
    decreases vs.len(),
{
    if vs.len() == 0 {
        Seq::empty()
    } else {
        concat_all(vs.drop_last()) + vs.last()@
    }
}

/// Two vectors concatenate to the cells of the first, then those of the second.
pub proof fn lemma_concat_two<T>(a: Vec<T>, b: Vec<T>)
    ensures
        concat_all(seq![a, b]) == a@ + b@,
{
    reveal_with_fuel(concat_all, 3);
    let parts = seq![a, b];
    assert(parts.drop_last() =~= seq![a]);
    assert(parts.drop_last().drop_last() =~= Seq::<Vec<T>>::empty());
    assert(concat_all(parts) =~= a@ + b@);
}

/// Three vectors concatenate to their cells, one vector after the other.
pub proof fn lemma_concat_three<T>(a: Vec<T>, b: Vec<T>, c: Vec<T>)
    ensures
        concat_all(seq![a, b, c]) == a@ + b@ + c@,
{
    reveal_with_fuel(concat_all, 2);
    let parts = seq![a, b, c];
    assert(parts.drop_last() =~= seq![a, b]);
    lemma_concat_two(a, b);
    assert(concat_all(parts) =~= a@ + b@ + c@);
}

/// The largest element of `s`, and 0 for the empty sequence.
pub open spec fn seq_max(s: Seq<nat>) -> nat
    decreases s.len(),
{
    if s.len() == 0 {
        0
    } else if s.last() >= seq_max(s.drop_last()) {
        s.last()
    } else {
        seq_max(s.drop_last())
    }
}

/// `seq_max` is an upper bound of the elements, and one of them unless there is none.
pub proof fn lemma_seq_max(s: Seq<nat>)
    ensures
        forall|i: int| 0 <= i < s.len() ==> s[i] <= seq_max(s),
        s.len() > 0 ==> exists|i: int| 0 <= i < s.len() && s[i] == seq_max(s),
        s.len() == 0 ==> seq_max(s) == 0,
    decreases s.len(),
{
    if s.len() > 0 {
        let front = s.drop_last();
        lemma_seq_max(front);
        assert forall|i: int| 0 <= i < s.len() implies s[i] <= seq_max(s) by {
            if i < s.len() - 1 {
                assert(front[i] == s[i]);
            }
        }
        if s.last() >= seq_max(front) {
            assert(s[s.len() - 1] == seq_max(s));
        } else {
            let i = choose|i: int| 0 <= i < front.len() && front[i] == seq_max(front);
            assert(s[i] == seq_max(s));
        }
    }
}

/// A dense array of `rows` rows and `cols` columns, stored row after row.
#[derive(Debug, PartialEq, Eq)]
pub struct Grid<T> {
    pub data: Vec<T>,
    pub rows: usize,
    pub cols: usize,
}

impl<T> Grid<T> {
    /// The cells fill the shape exactly.
    pub open spec fn wf(&self) -> bool {
        self.data.len() == self.rows * self.cols
    }

    /// The cell in row `i` and column `j`.
    pub open spec fn at(&self, i: int, j: int) -> T {
        self.data@[i * self.cols + j]
    }

    /// Row `i`, as a sequence of its cells.
    pub open spec fn row(&self, i: int) -> Seq<T> {
        self.data@.subrange(i * self.cols, i * self.cols + self.cols)
    }

    /// The position of a cell lies inside the data, and the row holds the cell.
    pub proof fn lemma_cell(&self, i: int, j: int)
        requires
            self.wf(),
            0 <= i < self.rows,
            0 <= j < self.cols,
        ensures
            0 <= i * self.cols + j < self.data.len(),
            0 <= i * self.cols <= i * self.cols + self.cols <= self.data.len(),
            self.row(i).len() == self.cols,
            self.row(i)[j] == self.at(i, j),
    {
        assert(0 <= i * self.cols) by (nonlinear_arith)
            requires
                0 <= i,
                0 <= self.cols,
        ;
        assert(i * self.cols + self.cols <= self.rows * self.cols) by (nonlinear_arith)
            requires
                0 <= i < self.rows,
                0 <= self.cols,
        ;
    }

    /// Two arrays of one shape whose rows are the same hold the same cells.
    pub proof fn lemma_same_rows(&self, other: &Self)
        requires
            self.wf(),
            other.wf(),
            self.rows == other.rows,
            self.cols == other.cols,
            forall|i: int| 0 <= i < self.rows ==> #[trigger] self.row(i) == other.row(i),
        ensures
            self.data@ == other.data@,
    {
        let cols = self.cols as int;
        let rows = self.rows as int;
        assert forall|k: int| 0 <= k < self.data@.len() implies self.data@[k] == other.data@[k] by {
            assert(cols > 0) by (nonlinear_arith)
                requires
                    0 <= k < rows * cols,
                    0 <= cols,
            ;
            let i = k / cols;
            let j = k % cols;
            vstd::arithmetic::div_mod::lemma_fundamental_div_mod(k, cols);
            assert(0 <= i < rows) by (nonlinear_arith)
                requires
                    k == cols * i + j,
                    0 <= j < cols,
                    0 <= k < rows * cols,
            ;
            assert(k == i * cols + j) by (nonlinear_arith)
                requires
                    k == cols * i + j,
            ;
            self.lemma_cell(i, j);
            other.lemma_cell(i, j);
            assert(self.row(i) == other.row(i));
        }
        assert(self.data@ =~= other.data@);
    }

    /// An array of no rows with `cols` columns.
    pub fn new(cols: usize) -> (out: Self)
        ensures
            out.wf(),
            out.rows == 0,
            out.cols == cols,
            out.data@.len() == 0,
    {
        Grid { data: Vec::new(), rows: 0, cols }
    }

    /// Appends `row` as the last row.
    pub fn push_row(&mut self, row: Vec<T>)
        requires
            old(self).wf(),
            row.len() == old(self).cols,
            old(self).rows < usize::MAX,
        ensures
            final(self).wf(),
            final(self).cols == old(self).cols,
            final(self).rows == old(self).rows + 1,
            final(self).data@ == old(self).data@ + row@,
            final(self).row(old(self).rows as int) == row@,
            forall|i: int|
                0 <= i < old(self).rows ==> #[trigger] final(self).row(i) == old(self).row(i),
    {
        let ghost before = self.data@;
        let ghost rows = self.rows as int;
        let ghost cols = self.cols as int;
        let mut row = row;
        let ghost added = row@;
        self.data.append(&mut row);
        self.rows = self.rows + 1;
        proof {
            assert((rows + 1) * cols == rows * cols + cols) by (nonlinear_arith);
            assert(self.data@.subrange(rows * cols, rows * cols + cols) =~= added);
            assert forall|i: int| 0 <= i < rows implies #[trigger] self.row(i) == old(self).row(
                i,
            ) by {
                assert(0 <= i * cols) by (nonlinear_arith)
                    requires
                        0 <= i,
                        0 <= cols,
                ;
                assert(i * cols + cols <= rows * cols) by (nonlinear_arith)
                    requires
                        0 <= i < rows,
                        0 <= cols,
                ;
                assert(self.row(i) =~= old(self).row(i));
            }
        }
    }
}

/// Concatenates the vectors of `vectors` in their order.
pub fn join<T>(vectors: Vec<Vec<T>>) -> (joined: Vec<T>)
    ensures
        joined@ == concat_all(vectors@),
{
    let mut joined: Vec<T> = Vec::new();
    let ghost all = vectors@;
    proof {
        assert(all.take(0) =~= Seq::<Vec<T>>::empty());
    }
    for v in it: vectors
        invariant
            it.seq() == all,
            joined@ == concat_all(all.take(it.index() as int)),
    {
        let mut v = v;
        proof {
            let next = all.take(it.index() as int + 1);
            assert(next.drop_last() =~= all.take(it.index() as int));
            assert(next.last() == v);
        }
        joined.append(&mut v);
    }
    proof {
        assert(all.take(all.len() as int) =~= all);
    }
    joined
}


/// A vector of `n` copies of `value`.
pub fn repeat<T: Copy>(value: T, n: usize) -> (out: Vec<T>)
    ensures
        out@ == Seq::new(n as nat, |i: int| value),
{
    let mut out: Vec<T> = Vec::new();
    while out.len() < n
        invariant
            out.len() <= n,
            out@ == Seq::new(out.len() as nat, |i: int| value),
        decreases n - out.len(),
    {
        let ghost before = out@;
        out.push(value);
        proof {
            assert(out@ =~= Seq::new(out.len() as nat, |i: int| value));
        }
    }
    out
}


/// Numbers that can be summed up.
pub trait Summable: Copy {
    /// The number, as an integer.
    spec fn value(self) -> int;

    /// Whether `v` is a number of this type.
    spec fn representable(v: int) -> bool;

    /// The number 0.
    fn zero() -> (out: Self)
        ensures
            out.value() == 0,
    ;

    /// The sum of two numbers, where it is a number of this type.
    fn plus(self, other: Self) -> (out: Self)
        requires
            Self::representable(self.value() + other.value()),
        ensures
            out.value() == self.value() + other.value(),
    ;
}

impl Summable for i32 {
    open spec fn value(self) -> int {
        self as int
    }

    open spec fn representable(v: int) -> bool {
        i32::MIN <= v <= i32::MAX
    }

    fn zero() -> (out: Self) {
        0
    }

    fn plus(self, other: Self) -> (out: Self) {
        self + other
    }
}

impl Summable for u64 {
    open spec fn value(self) -> int {
        self as int
    }

    open spec fn representable(v: int) -> bool {
        0 <= v <= u64::MAX
    }

    fn zero() -> (out: Self) {
        0
    }

    fn plus(self, other: Self) -> (out: Self) {
        self + other
    }
}

impl Summable for usize {
    open spec fn value(self) -> int {
        self as int
    }

    open spec fn representable(v: int) -> bool {
        0 <= v <= usize::MAX
    }

    fn zero() -> (out: Self) {
        0
    }

    fn plus(self, other: Self) -> (out: Self) {
        self + other
    }
}

/// The sum of the first `k` numbers of `values`.
pub open spec fn prefix_sum<V: Summable>(values: Seq<V>, k: int) -> int
    decreases k,
{
    if k <= 0 {
        0
    } else {
        prefix_sum(values, k - 1) + values[k - 1].value()
    }
}

/// The running sums of `values`: entry `k` is the sum of the numbers up to
/// and including the `k`-th.
pub fn accumulate<V: Summable>(values: &[V]) -> (cum_values: Vec<V>)
    requires
        forall|k: int| 0 <= k <= values@.len() ==> V::representable(#[trigger] prefix_sum(values@, k)),
    ensures
        cum_values@.len() == values@.len(),
        forall|k: int|
            0 <= k < values@.len() ==> (#[trigger] cum_values@[k]).value() == prefix_sum(
                values@,
                k + 1,
            ),
{
    let mut cum_values: Vec<V> = Vec::new();
    let mut total_v = V::zero();
    let mut i: usize = 0;
    while i < values.len()
        invariant
            i <= values@.len(),
            cum_values@.len() == i,
            total_v.value() == prefix_sum(values@, i as int),
            forall|k: int|
                0 <= k <= values@.len() ==> V::representable(#[trigger] prefix_sum(values@, k)),
            forall|k: int|
                0 <= k < i ==> (#[trigger] cum_values@[k]).value() == prefix_sum(values@, k + 1),
        decreases values@.len() - i,
    {
        proof {
            assert(V::representable(prefix_sum(values@, i + 1)));
        }
        total_v = total_v.plus(values[i]);
        cum_values.push(total_v);
        i += 1;
    }
    cum_values
}


/// The items of all groups, one group after the other.
pub open spec fn flattened<T>(groups: Seq<Seq<T>>) -> Seq<T>
    decreases groups.len(),
{
    if groups.len() == 0 {
        Seq::empty()
    } else {
        flattened(groups.drop_last()) + groups.last()
    }
}


/// The items of two runs of groups are the items of the first, then those of the second.
pub proof fn lemma_flattened_concat<T>(a: Seq<Seq<T>>, b: Seq<Seq<T>>)
    ensures
        flattened(a + b) == flattened(a) + flattened(b),
    decreases b.len(),
{
    if b.len() == 0 {
        assert(a + b =~= a);
        assert(flattened(a) + flattened(b) =~= flattened(a));
    } else {
        lemma_flattened_concat(a, b.drop_last());
        assert((a + b).drop_last() =~= a + b.drop_last());
        assert(flattened(a + b) =~= flattened(a) + flattened(b));
    }
}

} // verus!

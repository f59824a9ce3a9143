//! Dense square similarity matrices, stored column by column.
use vstd::prelude::*;

verus! {

/// The entry at row `i`, column `j` of a column-major `n` by `n` matrix.
pub open spec fn entry(data: Seq<u16>, n: nat, i: int, j: int) -> int {
    data[n * j + i] as int
}

/// Sum of the entries `(row, c)` for each `c` of `cols`.
pub open spec fn row_subset_sum(data: Seq<u16>, n: nat, row: int, cols: Seq<usize>) -> int
    decreases cols.len(),
{
    if cols.len() == 0 {
        0
    } else {
        row_subset_sum(data, n, row, cols.drop_last()) + entry(data, n, row, cols.last() as int)
    }
}

/// Sum of the entries `(i, j)` with `j < k`.
pub open spec fn row_prefix_sum(data: Seq<u16>, n: nat, i: int, k: int) -> int
    decreases k,
{
    if k <= 0 {
        0
    } else {
        row_prefix_sum(data, n, i, k - 1) + entry(data, n, i, k - 1)
    }
}

/// Sum of the entries `(i, j)` with `j < i < k`: the strict lower triangle of the first `k` rows.
pub open spec fn triangle_sum(data: Seq<u16>, n: nat, k: int) -> int
    decreases k,
{
    if k <= 0 {
        0
    } else {
        triangle_sum(data, n, k - 1) + row_prefix_sum(data, n, k - 1, k - 1)
    }
}

pub proof fn lemma_index_in_bounds(n: nat, i: int, j: int)
    requires
        0 <= i < n,
        0 <= j < n,
    ensures
        0 <= n * j + i < n * n,
{
    assert(n * j + i < n * n) by (nonlinear_arith)
        requires 0 <= i < n, 0 <= j < n;
    assert(0 <= n * j) by (nonlinear_arith)
        requires 0 <= j;
}

/// A side of a square matrix whose entries fit in memory is below 2^32.
pub proof fn lemma_side_bound(n: nat)
    requires
        n * n <= usize::MAX,
    ensures
        n < 0x1_0000_0000,
{
    if n >= 0x1_0000_0000 {
        assert(n * n >= 0x1_0000_0000 * 0x1_0000_0000) by (nonlinear_arith)
            requires n >= 0x1_0000_0000;
    }
}

proof fn lemma_row_prefix_bound(data: Seq<u16>, n: nat, i: int, k: int)
    ensures
        0 <= row_prefix_sum(data, n, i, k) <= 0xffff * (if k < 0 { 0 } else { k }),
    decreases k,
{
    if k > 0 {
        lemma_row_prefix_bound(data, n, i, k - 1);
    }
}

proof fn lemma_triangle_bound(data: Seq<u16>, n: nat, k: int)
    requires
        0 <= k,
    ensures
        0 <= triangle_sum(data, n, k) <= 0xffff * (k * k),
    decreases k,
{
    if k > 0 {
        lemma_triangle_bound(data, n, k - 1);
        lemma_row_prefix_bound(data, n, k - 1, k - 1);
        assert(0xffff * ((k - 1) * (k - 1)) + 0xffff * (k - 1) <= 0xffff * (k * k))
            by (nonlinear_arith) requires k > 0;
    }
}

proof fn lemma_subset_bound(data: Seq<u16>, n: nat, row: int, cols: Seq<usize>)
    ensures
        0 <= row_subset_sum(data, n, row, cols) <= 0xffff * cols.len(),
    decreases cols.len(),
{
    if cols.len() > 0 {
        lemma_subset_bound(data, n, row, cols.drop_last());
    }
}

/// An owned `n_items` by `n_items` matrix of similarities.
pub struct SquareMatrix {
    data: Vec<u16>,
    n_items: usize,
}

impl SquareMatrix {
    /// The entries, column by column.
    pub closed spec fn entries(&self) -> Seq<u16> {
        self.data@
    }

    pub closed spec fn side(&self) -> nat {
        self.n_items as nat
    }

    pub open spec fn wf(&self) -> bool {
        &&& self.entries().len() == self.side() * self.side()
        &&& self.side() * self.side() <= usize::MAX
    }

    /// The entry at row `i`, column `j`.
    pub open spec fn at(&self, i: int, j: int) -> int {
        entry(self.entries(), self.side(), i, j)
    }

    fn filled(n_items: usize, value: u16) -> (r: Self)
        requires
            n_items * n_items <= usize::MAX,
        ensures
            r.wf(),
            r.side() == n_items,
            forall|k: int| 0 <= k < r.entries().len() ==> r.entries()[k] == value,
    {
        let n2: usize = n_items * n_items;
        let mut data: Vec<u16> = Vec::with_capacity(n2);
        while data.len() < n2
            invariant
                data.len() <= n2,
                forall|k: int| 0 <= k < data.len() ==> data@[k] == value,
            decreases n2 - data.len(),
        {
            data.push(value);
        }
        SquareMatrix { data, n_items }
    }

    /// A matrix of zeros.
    pub fn zeros(n_items: usize) -> (r: Self)
        requires
            n_items * n_items <= usize::MAX,
        ensures
            r.wf(),
            r.side() == n_items,
            forall|i: int, j: int| 0 <= i < n_items && 0 <= j < n_items ==> r.at(i, j) == 0,
    {
        let r = Self::filled(n_items, 0);
        proof {
            assert forall|i: int, j: int| 0 <= i < n_items && 0 <= j < n_items implies r.at(i, j) == 0 by {
                lemma_index_in_bounds(n_items as nat, i, j);
            }
        }
        r
    }

    /// A matrix of ones.
    pub fn ones(n_items: usize) -> (r: Self)
        requires
            n_items * n_items <= usize::MAX,
        ensures
            r.wf(),
            r.side() == n_items,
            forall|i: int, j: int| 0 <= i < n_items && 0 <= j < n_items ==> r.at(i, j) == 1,
    {
        let r = Self::filled(n_items, 1);
        proof {
            assert forall|i: int, j: int| 0 <= i < n_items && 0 <= j < n_items implies r.at(i, j) == 1 by {
                lemma_index_in_bounds(n_items as nat, i, j);
            }
        }
        r
    }

    /// The identity matrix: ones on the diagonal, zeros elsewhere.
    pub fn identity(n_items: usize) -> (r: Self)
        requires
            n_items * n_items <= usize::MAX,
        ensures
            r.wf(),
            r.side() == n_items,
            forall|i: int, j: int|
                0 <= i < n_items && 0 <= j < n_items ==> r.at(i, j) == (if i == j { 1int } else { 0 }),
    {
        let mut data: Vec<u16> = Vec::new();
        let ghost n = n_items as nat;
        let mut j: usize = 0;
        while j < n_items
            invariant
                j <= n_items,
                n == n_items,
                n_items * n_items <= usize::MAX,
                data.len() == n * j,
                forall|jj: int, ii: int| 0 <= jj < j && 0 <= ii < n ==>
                    #[trigger] data@[n * jj + ii] == (if ii == jj { 1u16 } else { 0u16 }),
            decreases n_items - j,
        {
            let mut i: usize = 0;
            proof {
                assert(n * j + n <= n * n) by (nonlinear_arith) requires j < n;
            }
            while i < n_items
                invariant
                    i <= n_items,
                    j < n_items,
                    n == n_items,
                    n * j + n <= n * n,
                    n_items * n_items <= usize::MAX,
                    data.len() == n * j + i,
                    forall|jj: int, ii: int| 0 <= jj < j && 0 <= ii < n ==>
                        #[trigger] data@[n * jj + ii] == (if ii == jj { 1u16 } else { 0u16 }),
                    forall|ii: int| 0 <= ii < i ==>
                        #[trigger] data@[n * j + ii] == (if ii == j { 1u16 } else { 0u16 }),
                decreases n_items - i,
            {
                let ghost old_data = data@;
                if i == j {
                    data.push(1);
                } else {
                    data.push(0);
                }
                proof {
                    assert forall|jj: int, ii: int| 0 <= jj < j && 0 <= ii < n implies
                        #[trigger] data@[n * jj + ii] == (if ii == jj { 1u16 } else { 0u16 }) by {
                        assert(n * jj + ii < n * j) by (nonlinear_arith) requires 0 <= jj < j, 0 <= ii < n;
                        assert(0 <= n * jj) by (nonlinear_arith) requires 0 <= jj;
                        assert(data@[n * jj + ii] == old_data[n * jj + ii]);
                    }
                }
                i = i + 1;
            }
            proof {
                assert(n * (j + 1) == n * j + n) by (nonlinear_arith);
                assert forall|jj: int, ii: int| 0 <= jj < j + 1 && 0 <= ii < n implies
                    #[trigger] data@[n * jj + ii] == (if ii == jj { 1u16 } else { 0u16 }) by {
                    if jj == j {
                        assert(data@[n * j + ii] == (if ii == j { 1u16 } else { 0u16 }));
                    }
                }
            }
            j = j + 1;
        }
        let r = SquareMatrix { data, n_items };
        proof {
            assert(data.len() == n * n);
        }
        r
    }

    /// The entries, column by column.
    pub fn data(&self) -> (r: &[u16])
        ensures
            r@ == self.entries(),
    {
        self.data.as_slice()
    }

    /// Sets the entry at row `i`, column `j`.
    pub fn set(&mut self, i: usize, j: usize, value: u16)
        requires
            old(self).wf(),
            i < old(self).side(),
            j < old(self).side(),
        ensures
            final(self).wf(),
            final(self).side() == old(self).side(),
            final(self).entries() == old(self).entries().update(old(self).side() * j + i, value),
    {
        proof {
            lemma_index_in_bounds(self.n_items as nat, i as int, j as int);
        }
        let k = self.n_items * j + i;
        self.data.set(k, value);
    }

    /// A read-only view of this matrix.
    pub fn view(&self) -> (r: SquareMatrixBorrower<'_>)
        requires
            self.wf(),
        ensures
            r.wf(),
            r@ == self.entries(),
            r.side() == self.side(),
    {
        let data = self.data.as_slice();
        assert(data@ == self.data@);
        SquareMatrixBorrower::from_slice(data, self.n_items)
    }

    pub fn n_items(&self) -> (r: usize)
        ensures
            r == self.side(),
    {
        self.n_items
    }
}

/// A read-only view of the entries of a square matrix held elsewhere.
#[derive(Clone, Copy)]
pub struct SquareMatrixBorrower<'a> {
    data: &'a [u16],
    n_items: usize,
}

impl<'a> View for SquareMatrixBorrower<'a> {
    type V = Seq<u16>;

    closed spec fn view(&self) -> Seq<u16> {
        self.data@
    }
}

impl<'a> SquareMatrixBorrower<'a> {
    pub closed spec fn side(&self) -> nat {
        self.n_items as nat
    }

    /// The entries of a well-formed view fit in memory.
    pub proof fn lemma_len_fits(&self)
        requires
            self.wf(),
        ensures
            self.side() * self.side() <= usize::MAX,
    {
    }

    pub proof fn lemma_side_fits(&self)
        ensures
            self.side() <= usize::MAX,
    {
    }

    pub open spec fn wf(&self) -> bool {
        &&& self@.len() == self.side() * self.side()
        &&& self.side() * self.side() <= usize::MAX
    }

    /// The entry at row `i`, column `j`.
    pub open spec fn at(&self, i: int, j: int) -> int {
        entry(self@, self.side(), i, j)
    }

    /// A view of `data` as an `n_items` by `n_items` matrix stored column by column.
    pub fn from_slice(data: &'a [u16], n_items: usize) -> (r: Self)
        requires
            data@.len() == n_items * n_items,
        ensures
            r.wf(),
            r@ == data@,
            r.side() == n_items,
    {
        let len = data.len();
        proof {
            assert(len == n_items * n_items);
        }
        SquareMatrixBorrower { data, n_items }
    }

    pub fn n_items(&self) -> (r: usize)
        ensures
            r == self.side(),
    {
        self.n_items
    }

    /// The entry at row `i`, column `j`.
    pub fn index(&self, i: usize, j: usize) -> (r: u16)
        requires
            self.wf(),
            i < self.side(),
            j < self.side(),
        ensures
            r == self.at(i as int, j as int),
    {
        proof {
            lemma_index_in_bounds(self.n_items as nat, i as int, j as int);
        }
        self.data[self.n_items * j + i]
    }

    /// The entry at row `i`, column `j`; the bounds are the caller's obligation, checked by
    /// the verifier rather than at run time.
    pub fn get_unchecked(&self, i: usize, j: usize) -> (r: u16)
        requires
            self.wf(),
            i < self.side(),
            j < self.side(),
        ensures
            r == self.at(i as int, j as int),
    {
        self.index(i, j)
    }

    /// The entries, column by column.
    pub fn data(&self) -> (r: &'a [u16])
        ensures
            r@ == self@,
    {
        self.data
    }

    /// Sum of the entries strictly below the diagonal.
    pub fn sum_of_triangle(&self) -> (r: u128)
        requires
            self.wf(),
        ensures
            r == triangle_sum(self@, self.side(), self.side() as int),
    {
        let n = self.n_items;
        proof {
            lemma_side_bound(n as nat);
        }
        let mut sum: u128 = 0;
        let mut i: usize = 0;
        while i < n
            invariant
                self.wf(),
                n == self.side(),
                n < 0x1_0000_0000,
                i <= n,
                sum == triangle_sum(self@, n as nat, i as int),
            decreases n - i,
        {
            let mut j: usize = 0;
            proof {
                lemma_triangle_bound(self@, n as nat, i as int);
                assert(0xffff * (i * i) + 0xffff * i <= 0xffff * 0x1_0000_0000 * 0x1_0000_0000)
                    by (nonlinear_arith) requires i < 0x1_0000_0000;
            }
            while j < i
                invariant
                    self.wf(),
                    n == self.side(),
                    i < n,
                    n < 0x1_0000_0000,
                    j <= i,
                    sum == triangle_sum(self@, n as nat, i as int) + row_prefix_sum(self@, n as nat, i as int, j as int),
                    0 <= triangle_sum(self@, n as nat, i as int) <= 0xffff * (i * i),
                    0xffff * (i * i) + 0xffff * i <= 0xffff * 0x1_0000_0000 * 0x1_0000_0000,
                decreases i - j,
            {
                proof {
                    lemma_row_prefix_bound(self@, n as nat, i as int, j as int);
                }
                let v = self.index(i, j);
                sum = sum + v as u128;
                j = j + 1;
            }
            i = i + 1;
        }
        sum
    }

    /// Sum of the entries `(row, c)` for each `c` of `columns`.
    pub fn sum_of_row_subset(&self, row: usize, columns: &[usize]) -> (r: u128)
        requires
            self.wf(),
            row < self.side(),
            forall|k: int| 0 <= k < columns@.len() ==> columns@[k] < self.side(),
        ensures
            r == row_subset_sum(self@, self.side(), row as int, columns@),
    {
        let mut sum: u128 = 0;
        let mut k: usize = 0;
        while k < columns.len()
            invariant
                self.wf(),
                row < self.side(),
                forall|q: int| 0 <= q < columns@.len() ==> columns@[q] < self.side(),
                k <= columns@.len(),
                sum == row_subset_sum(self@, self.side(), row as int, columns@.subrange(0, k as int)),
            decreases columns@.len() - k,
        {
            proof {
                lemma_subset_bound(self@, self.side(), row as int, columns@.subrange(0, k as int));
                assert(columns@.subrange(0, k + 1).drop_last() =~= columns@.subrange(0, k as int));
            }
            let v = self.index(row, columns[k]);
            sum = sum + v as u128;
            k = k + 1;
        }
        proof {
            assert(columns@.subrange(0, k as int) =~= columns@);
        }
        sum
    }
}

} // verus!

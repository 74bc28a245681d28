//! The bucket lattice behind the uniform spatial hash.
//!
//! The world square is cut into `cols x cols` cells, stored row by row. An item is
//! filed under every cell its query circle touches, and a query gathers the ids filed
//! under every cell its circle touches. Turning positions into cell coordinates is the
//! caller's job; this module owns the cells.

use vstd::prelude::*;

verus! {

/// Cell coordinate `v` clamped into `0..cols`.
pub open spec fn spec_clamp_cell(v: i32, cols: i32) -> i32 {
    if v < 0 {
        0
    } else if v > cols - 1 {
        (cols - 1) as i32
    } else {
        v
    }
}

/// Ids filed under cells `cx0..=cx1` of row `cz`, cell by cell.
pub open spec fn spec_row(buckets: Seq<Seq<u32>>, cols: int, cz: int, cx0: int, cx1: int) -> Seq<
    u32,
>
    decreases cx1 - cx0 + 1,
{
    if cx1 < cx0 {
        Seq::empty()
    } else {
        spec_row(buckets, cols, cz, cx0, cx1 - 1) + buckets[cz * cols + cx1]
    }
}

/// Ids filed under the cell rectangle `cx0..=cx1` by `cz0..=cz1`, row by row.
pub open spec fn spec_cells(
    buckets: Seq<Seq<u32>>,
    cols: int,
    cx0: int,
    cz0: int,
    cx1: int,
    cz1: int,
) -> Seq<u32>
    decreases cz1 - cz0 + 1,
{
    if cz1 < cz0 {
        Seq::empty()
    } else {
        spec_cells(buckets, cols, cx0, cz0, cx1, cz1 - 1) + spec_row(buckets, cols, cz1, cx0, cx1)
    }
}

/// Cell `b` of a `cols`-wide lattice lies in the rectangle `cx0..=cx1` by `cz0..=cz1`.
pub open spec fn spec_in_rect(b: int, cols: int, cx0: int, cz0: int, cx1: int, cz1: int) -> bool {
    &&& cx0 <= b % cols <= cx1
    &&& cz0 <= b / cols <= cz1
}

/// The cells after filing `id` under every cell of the rectangle `cx0..=cx1` by
/// `cz0..=cz1`.
pub open spec fn spec_filed(
    buckets: Seq<Seq<u32>>,
    cols: int,
    id: u32,
    cx0: int,
    cz0: int,
    cx1: int,
    cz1: int,
) -> Seq<Seq<u32>> {
    Seq::new(
        buckets.len(),
        |b: int|
            if spec_in_rect(b, cols, cx0, cz0, cx1, cz1) {
                buckets[b].push(id)
            } else {
                buckets[b]
            },
    )
}

/// A row listing gathers every id of every cell in it.
pub proof fn lemma_row_holds(
    buckets: Seq<Seq<u32>>,
    cols: int,
    cz: int,
    cx0: int,
    cx1: int,
    cx: int,
    id: u32,
)
    requires
        cx0 <= cx <= cx1,
        buckets[cz * cols + cx].contains(id),
    ensures
        spec_row(buckets, cols, cz, cx0, cx1).contains(id),
    decreases cx1 - cx0,
{
    let prefix = spec_row(buckets, cols, cz, cx0, cx1 - 1);
    let cell = buckets[cz * cols + cx1];
    if cx == cx1 {
        let j = choose|j: int| 0 <= j < cell.len() && cell[j] == id;
        assert((prefix + cell)[prefix.len() + j] == id);
    } else {
        lemma_row_holds(buckets, cols, cz, cx0, cx1 - 1, cx, id);
        let j = choose|j: int| 0 <= j < prefix.len() && prefix[j] == id;
        assert((prefix + cell)[j] == id);
    }
}

/// A rectangle listing gathers every id of every cell in it.
pub proof fn lemma_cells_hold(
    buckets: Seq<Seq<u32>>,
    cols: int,
    cx0: int,
    cz0: int,
    cx1: int,
    cz1: int,
    cx: int,
    cz: int,
    id: u32,
)
    requires
        cx0 <= cx <= cx1,
        cz0 <= cz <= cz1,
        buckets[cz * cols + cx].contains(id),
    ensures
        spec_cells(buckets, cols, cx0, cz0, cx1, cz1).contains(id),
    decreases cz1 - cz0,
{
    let prefix = spec_cells(buckets, cols, cx0, cz0, cx1, cz1 - 1);
    let row = spec_row(buckets, cols, cz1, cx0, cx1);
    if cz == cz1 {
        lemma_row_holds(buckets, cols, cz, cx0, cx1, cx, id);
        let j = choose|j: int| 0 <= j < row.len() && row[j] == id;
        assert((prefix + row)[prefix.len() + j] == id);
    } else {
        lemma_cells_hold(buckets, cols, cx0, cz0, cx1, cz1 - 1, cx, cz, id);
        let j = choose|j: int| 0 <= j < prefix.len() && prefix[j] == id;
        assert((prefix + row)[j] == id);
    }
}

/// An item filed under a cell rectangle is returned by every query whose rectangle
/// shares a cell with it.
pub proof fn lemma_query_finds_filed(
    buckets: Seq<Seq<u32>>,
    cols: int,
    id: u32,
    rect: (int, int, int, int),
    query: (int, int, int, int),
)
    requires
        cols >= 1,
        buckets.len() == cols * cols,
        0 <= rect.0 < cols,
        0 <= rect.1 < cols,
        0 <= query.0 < cols,
        0 <= query.1 < cols,
        rect.2 < cols,
        rect.3 < cols,
        query.2 < cols,
        query.3 < cols,
        rect.0 <= rect.2 && query.0 <= query.2,
        rect.1 <= rect.3 && query.1 <= query.3,
        rect.0 <= query.2 && query.0 <= rect.2,
        rect.1 <= query.3 && query.1 <= rect.3,
    ensures
        spec_cells(
            spec_filed(buckets, cols, id, rect.0, rect.1, rect.2, rect.3),
            cols,
            query.0,
            query.1,
            query.2,
            query.3,
        ).contains(id),
{
    let cx = if rect.0 > query.0 {
        rect.0
    } else {
        query.0
    };
    let cz = if rect.1 > query.1 {
        rect.1
    } else {
        query.1
    };
    let filed = spec_filed(buckets, cols, id, rect.0, rect.1, rect.2, rect.3);
    lemma_cell_index(cols, cx, cz);
    let b = cz * cols + cx;
    assert(spec_in_rect(b, cols, rect.0, rect.1, rect.2, rect.3));
    assert(filed[b] == buckets[b].push(id));
    assert(filed[b][buckets[b].len() as int] == id);
    lemma_cells_hold(filed, cols, query.0, query.1, query.2, query.3, cx, cz, id);
}

/// Uniform bucket lattice: `cols x cols` cells of item ids.
#[derive(Clone, Debug)]
pub struct GridCells {
    cols: i32,
    buckets: Vec<Vec<u32>>,
}

impl GridCells {
    /// Cells per side.
    pub closed spec fn cols(&self) -> int {
        self.cols as int
    }

    /// Ids filed under each cell, row by row.
    pub closed spec fn buckets(&self) -> Seq<Seq<u32>> {
        self.buckets@.map_values(|b: Vec<u32>| b@)
    }

    /// At least one cell per side, `cols x cols` cells, and every cell index fits an
    /// `i32`.
    pub closed spec fn wf(&self) -> bool {
        &&& self.cols >= 1
        &&& self.cols * self.cols <= 0x8000_0000
        &&& self.buckets@.len() == self.cols * self.cols
    }

    /// An empty lattice of `cols x cols` cells.
    pub fn new(cols: i32) -> (r: GridCells)
        requires
            cols >= 1,
            cols * cols <= 0x8000_0000,
        ensures
            r.wf(),
            r.cols() == cols,
            r.buckets() == Seq::new((cols * cols) as nat, |i: int| Seq::<u32>::empty()),
    {
        let n = (cols as usize) * (cols as usize);
        let mut buckets: Vec<Vec<u32>> = Vec::new();
        let mut i: usize = 0;
        while i < n
            invariant
                i <= n,
                n == cols * cols,
                buckets@.len() == i,
                forall|k: int| 0 <= k < i ==> (#[trigger] buckets@[k])@ == Seq::<u32>::empty(),
            decreases n - i,
        {
            buckets.push(Vec::new());
            i += 1;
        }
        let r = GridCells { cols, buckets };
        assert(r.buckets() =~= Seq::new((cols * cols) as nat, |i: int| Seq::<u32>::empty()));
        r
    }

    /// Cell coordinate `v` clamped into the lattice.
    pub fn clamp_i(&self, v: i32) -> (r: i32)
        requires
            self.wf(),
        ensures
            r == spec_clamp_cell(v, self.cols() as i32),
            0 <= r < self.cols(),
    {
        if v < 0 {
            0
        } else if v > self.cols - 1 {
            self.cols - 1
        } else {
            v
        }
    }

    /// Index of cell `(cx, cz)` in the row-by-row cell list.
    pub fn bucket_index(&self, cx: i32, cz: i32) -> (r: usize)
        requires
            self.wf(),
            0 <= cx < self.cols(),
            0 <= cz < self.cols(),
        ensures
            r == cz * self.cols() + cx,
            r < self.buckets().len(),
            r as int % self.cols() == cx,
            r as int / self.cols() == cz,
    {
        proof {
            lemma_cell_index(self.cols as int, cx as int, cz as int);
        }
        (cz * self.cols + cx) as usize
    }

    /// Files `id` under every cell of the rectangle `cx0..=cx1` by `cz0..=cz1`.
    pub fn insert(&mut self, id: u32, cx0: i32, cz0: i32, cx1: i32, cz1: i32)
        requires
            old(self).wf(),
            0 <= cx0 < old(self).cols(),
            0 <= cz0 < old(self).cols(),
            0 <= cx1 < old(self).cols(),
            0 <= cz1 < old(self).cols(),
        ensures
            final(self).wf(),
            final(self).cols() == old(self).cols(),
            final(self).buckets() == spec_filed(
                old(self).buckets(),
                old(self).cols(),
                id,
                cx0 as int,
                cz0 as int,
                cx1 as int,
                cz1 as int,
            ),
    {
        let ghost b0 = self.buckets();
        let ghost cols = self.cols as int;
        let mut cz = cz0;
        while cz <= cz1
            invariant
                self.wf(),
                self.cols == cols,
                0 <= cx0 < cols,
                0 <= cz0 < cols,
                0 <= cx1 < cols,
                0 <= cz1 < cols,
                cz0 <= cz,
                cz <= cz1 + 1 || cz == cz0,
                self.buckets().len() == b0.len(),
                forall|b: int|
                    0 <= b < b0.len() ==> #[trigger] self.buckets()[b] == if spec_in_rect(
                        b,
                        cols,
                        cx0 as int,
                        cz0 as int,
                        cx1 as int,
                        (cz - 1) as int,
                    ) {
                        b0[b].push(id)
                    } else {
                        b0[b]
                    },
            decreases cz1 + 1 - cz,
        {
            let mut cx = cx0;
            while cx <= cx1
                invariant
                    self.wf(),
                    self.cols == cols,
                    0 <= cx0 < cols,
                    0 <= cx1 < cols,
                    0 <= cz0 <= cz <= cz1 < cols,
                    cx0 <= cx,
                    cx <= cx1 + 1 || cx == cx0,
                    self.buckets().len() == b0.len(),
                    forall|b: int|
                        0 <= b < b0.len() ==> #[trigger] self.buckets()[b] == if spec_in_rect(
                            b,
                            cols,
                            cx0 as int,
                            cz0 as int,
                            cx1 as int,
                            (cz - 1) as int,
                        ) || (b / cols == cz && cx0 <= b % cols < cx) {
                            b0[b].push(id)
                        } else {
                            b0[b]
                        },
                decreases cx1 + 1 - cx,
            {
                let k = self.bucket_index(cx, cz);
                let ghost before = self.buckets();
                let ghost before_vec = self.buckets@;
                self.buckets[k].push(id);
                proof {
                    assert(self.buckets@ == before_vec.update(k as int, self.buckets@[k as int]));
                    assert(self.buckets@[k as int]@ == before_vec[k as int]@.push(id));
                    assert(self.buckets()[k as int] == before[k as int].push(id));
                    assert(forall|b: int| 0 <= b < b0.len() && b != k ==> self.buckets()[b] == before[b]);
                    assert(!spec_in_rect(k as int, cols, cx0 as int, cz0 as int, cx1 as int, cz as int - 1));
                    assert(before[k as int] == b0[k as int]);
                    assert forall|b: int| 0 <= b < b0.len() implies #[trigger] self.buckets()[b]
                        == if spec_in_rect(b, cols, cx0 as int, cz0 as int, cx1 as int, cz as int - 1)
                        || (b / cols == cz && cx0 <= b % cols < cx + 1) {
                        b0[b].push(id)
                    } else {
                        b0[b]
                    } by {
                        vstd::arithmetic::div_mod::lemma_fundamental_div_mod(b, cols);
                        vstd::arithmetic::mul::lemma_mul_is_commutative(cols, cz as int);
                        if b != k {
                            assert(!(b / cols == cz && b % cols == cx));
                            assert(self.buckets()[b] == before[b]);
                        }
                    }
                }
                cx += 1;
            }
            proof {
                assert forall|b: int| 0 <= b < b0.len() implies #[trigger] self.buckets()[b] == if spec_in_rect(
                    b,
                    cols,
                    cx0 as int,
                    cz0 as int,
                    cx1 as int,
                    cz as int,
                ) {
                    b0[b].push(id)
                } else {
                    b0[b]
                } by {
                    assert(spec_in_rect(b, cols, cx0 as int, cz0 as int, cx1 as int, cz as int) == (
                    spec_in_rect(b, cols, cx0 as int, cz0 as int, cx1 as int, cz as int - 1) || (b
                        / cols == cz && cx0 <= b % cols < cx)));
                }
            }
            cz += 1;
        }
        assert(self.buckets() =~= spec_filed(b0, cols, id, cx0 as int, cz0 as int, cx1 as int, cz1 as int));
    }

    /// Appends the ids filed under every cell of the rectangle `cx0..=cx1` by
    /// `cz0..=cz1`, row by row and cell by cell. A superset of the true answer: callers
    /// that need exact distances filter afterwards.
    pub fn query(&self, cx0: i32, cz0: i32, cx1: i32, cz1: i32, out: &mut Vec<u32>)
        requires
            self.wf(),
            0 <= cx0 < self.cols(),
            0 <= cz0 < self.cols(),
            0 <= cx1 < self.cols(),
            0 <= cz1 < self.cols(),
        ensures
            final(out)@ == old(out)@ + spec_cells(
                self.buckets(),
                self.cols(),
                cx0 as int,
                cz0 as int,
                cx1 as int,
                cz1 as int,
            ),
    {
        let ghost bs = self.buckets();
        let ghost cols = self.cols as int;
        let mut cz = cz0;
        while cz <= cz1
            invariant
                self.wf(),
                bs == self.buckets(),
                cols == self.cols(),
                0 <= cx0 < cols,
                0 <= cz0 < cols,
                0 <= cx1 < cols,
                0 <= cz1 < cols,
                cz0 <= cz,
                cz <= cz1 + 1 || cz == cz0,
                out@ == old(out)@ + spec_cells(bs, cols, cx0 as int, cz0 as int, cx1 as int, cz - 1),
            decreases cz1 + 1 - cz,
        {
            let ghost at_row = out@;
            let mut cx = cx0;
            while cx <= cx1
                invariant
                    self.wf(),
                    bs == self.buckets(),
                    cols == self.cols(),
                    0 <= cx0 < cols,
                    0 <= cx1 < cols,
                    0 <= cz0 <= cz <= cz1 < cols,
                    cx0 <= cx,
                    cx <= cx1 + 1 || cx == cx0,
                    at_row == old(out)@ + spec_cells(bs, cols, cx0 as int, cz0 as int, cx1 as int, cz - 1),
                    out@ == at_row + spec_row(bs, cols, cz as int, cx0 as int, cx - 1),
                decreases cx1 + 1 - cx,
            {
                let k = self.bucket_index(cx, cz);
                let ghost before = out@;
                let cell = &self.buckets[k];
                let mut j: usize = 0;
                while j < cell.len()
                    invariant
                        j <= cell@.len(),
                        cell@ == bs[k as int],
                        out@ == before + cell@.take(j as int),
                    decreases cell@.len() - j,
                {
                    out.push(cell[j]);
                    assert(cell@.take(j + 1) =~= cell@.take(j as int).push(cell@[j as int]));
                    j += 1;
                }
                assert(cell@.take(j as int) =~= cell@);
                assert(out@ =~= at_row + spec_row(bs, cols, cz as int, cx0 as int, cx as int));
                cx += 1;
            }
            assert(out@ =~= old(out)@ + spec_cells(bs, cols, cx0 as int, cz0 as int, cx1 as int, cz as int));
            cz += 1;
        }
    }

    /// Mean bucket occupancy: the number of filings over all cells divided by the
    /// number of cells, rounded down.
    pub fn max_bucket(&self) -> (r: usize)
        requires
            self.wf(),
        ensures
            r == spec_total_filed(self.buckets()) / self.buckets().len(),
    {
        let ghost b = self.buckets();
        let n = self.buckets.len();
        let mut total: u128 = 0;
        let mut i: usize = 0;
        while i < n
            invariant
                self.wf(),
                b == self.buckets(),
                n == b.len(),
                i <= n,
                total == spec_total_filed(b.take(i as int)),
                total <= i * usize::MAX,
            decreases n - i,
        {
            proof {
                lemma_total_filed_prefix(b, (i + 1) as int);
            }
            let l = self.buckets[i].len();
            assert(l == b[i as int].len());
            assert(total + l <= (i + 1) * usize::MAX) by (nonlinear_arith)
                requires
                    total <= i * usize::MAX,
                    l <= usize::MAX,
            ;
            assert((i + 1) * usize::MAX <= 0x8000_0000 * 0x1_0000_0000_0000_0000int)
                by (nonlinear_arith)
                requires
                    i + 1 <= 0x8000_0000,
                    usize::MAX < 0x1_0000_0000_0000_0000int,
            ;
            total = total + l as u128;
            i += 1;
        }
        assert(b.take(n as int) =~= b);
        assert(self.cols * self.cols >= 1) by (nonlinear_arith)
            requires
                self.cols >= 1,
        ;
        let mean = total / (n as u128);
        assert(mean <= usize::MAX) by (nonlinear_arith)
            requires
                mean == total / (n as u128),
                n >= 1,
                total <= n * usize::MAX,
        ;
        mean as usize
    }
}

/// Number of filings over all cells: the sum of the bucket lengths.
pub open spec fn spec_total_filed(b: Seq<Seq<u32>>) -> nat
    decreases b.len(),
{
    if b.len() == 0 {
        0
    } else {
        spec_total_filed(b.drop_last()) + b.last().len()
    }
}

/// Counting filings: an empty lattice has none, and filing one more id under any one cell
/// adds exactly one.
pub proof fn lemma_total_filed_counts(b: Seq<Seq<u32>>, i: int, x: u32)
    requires
        0 <= i < b.len(),
    ensures
        spec_total_filed(b.update(i, b[i].push(x))) == spec_total_filed(b) + 1,
        spec_total_filed(Seq::new(b.len(), |k: int| Seq::<u32>::empty())) == 0,
    decreases b.len(),
{
    let e = Seq::new(b.len(), |k: int| Seq::<u32>::empty());
    lemma_total_filed_empty(e);
    let c = b.update(i, b[i].push(x));
    if i == b.len() - 1 {
        assert(c.drop_last() =~= b.drop_last());
    } else {
        lemma_total_filed_counts(b.drop_last(), i, x);
        assert(c.drop_last() =~= b.drop_last().update(i, b[i].push(x)));
    }
}

proof fn lemma_total_filed_empty(e: Seq<Seq<u32>>)
    requires
        forall|k: int| 0 <= k < e.len() ==> #[trigger] e[k].len() == 0,
    ensures
        spec_total_filed(e) == 0,
    decreases e.len(),
{
    if e.len() > 0 {
        lemma_total_filed_empty(e.drop_last());
    }
}

proof fn lemma_total_filed_prefix(b: Seq<Seq<u32>>, i: int)
    requires
        0 < i <= b.len(),
    ensures
        spec_total_filed(b.take(i)) == spec_total_filed(b.take(i - 1)) + b[i - 1].len(),
{
    assert(b.take(i).drop_last() =~= b.take(i - 1));
}

/// The row-by-row index of cell `(cx, cz)` fits the lattice and decodes back.
pub proof fn lemma_cell_index(cols: int, cx: int, cz: int)
    requires
        cols >= 1,
        0 <= cx < cols,
        0 <= cz < cols,
    ensures
        0 <= cz * cols + cx < cols * cols,
        (cz * cols + cx) % cols == cx,
        (cz * cols + cx) / cols == cz,
{
    assert(0 <= cz * cols <= (cols - 1) * cols) by (nonlinear_arith)
        requires
            0 <= cz < cols,
    ;
    assert((cols - 1) * cols + cols == cols * cols) by (nonlinear_arith);
    vstd::arithmetic::div_mod::lemma_fundamental_div_mod_converse(cz * cols + cx, cols, cz, cx);
}

} // verus!

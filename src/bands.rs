use vstd::prelude::*;

verus! {

/// A contiguous range of rows `[y_start, y_end)` spanning the full width.
#[derive(Clone, Copy, Debug, PartialEq, Eq, Structural)]
pub struct Band {
    pub y_start: u32,
    pub y_end: u32,
}

impl Band {
    pub open spec fn rows(self) -> int {
        self.y_end - self.y_start
    }

    pub open spec fn contains(self, y: int) -> bool {
        self.y_start <= y < self.y_end
    }
}

/// Row count of every band but the last when `height` rows go to `n` workers.
pub open spec fn slice_height(height: int, n: int) -> int {
    height / n
}

/// Band `i` of `n`: equal slices, with the last one taking the remainder rows.
pub open spec fn band_of(height: int, n: int, i: int) -> Band {
    let q = slice_height(height, n);
    Band {
        y_start: (i * q) as u32,
        y_end: if i == n - 1 { height as u32 } else { ((i + 1) * q) as u32 },
    }
}

/// Total row count of a sequence of bands.
pub open spec fn total_rows(bands: Seq<Band>) -> int
    decreases bands.len(),
{
    if bands.len() == 0 {
        0
    } else {
        total_rows(bands.drop_last()) + bands.last().rows()
    }
}

proof fn lemma_slice_bounds(height: int, n: int, i: int)
    requires
        0 <= height,
        0 < n,
        0 <= i < n,
    ensures
        0 <= i * slice_height(height, n) <= (i + 1) * slice_height(height, n) <= height,
        i < n - 1 ==> (i + 1) * slice_height(height, n) <= (n - 1) * slice_height(height, n),
{
    let q = slice_height(height, n);
    assert(0 <= q) by (nonlinear_arith)
        requires q == height / n, 0 <= height, 0 < n;
    assert(n * q <= height) by (nonlinear_arith)
        requires q == height / n, 0 <= height, 0 < n;
    assert(0 <= i * q <= (i + 1) * q <= n * q) by (nonlinear_arith)
        requires 0 <= q, 0 <= i < n;
    if i < n - 1 {
        assert((i + 1) * q <= (n - 1) * q) by (nonlinear_arith)
            requires 0 <= q, i + 1 <= n - 1;
    }
}

/// Splits `height` rows into `n_workers` contiguous bands of `height / n_workers`
/// rows each, the last band also taking the rows left over by the division.
pub fn bands(height: u32, n_workers: u32) -> (r: Vec<Band>)
    requires
        n_workers > 0,
    ensures
        r@.len() == n_workers,
        forall|i: int| 0 <= i < n_workers ==> r@[i] == band_of(height as int, n_workers as int, i),
{
    let q = height / n_workers;
    let mut r: Vec<Band> = Vec::new();
    let mut i: u32 = 0;
    while i < n_workers
        invariant
            0 < n_workers,
            i <= n_workers,
            q == slice_height(height as int, n_workers as int),
            r@.len() == i,
            forall|k: int| 0 <= k < i ==> r@[k] == band_of(height as int, n_workers as int, k),
        decreases n_workers - i,
    {
        proof {
            lemma_slice_bounds(height as int, n_workers as int, i as int);
        }
        let y_start = i * q;
        let y_end = if i == n_workers - 1 { height } else { (i + 1) * q };
        r.push(Band { y_start, y_end });
        i = i + 1;
    }
    r
}

proof fn lemma_prefix_rows(height: int, n: int, k: int)
    requires
        0 <= height <= u32::MAX,
        0 < n,
        0 <= k <= n,
    ensures
        total_rows(Seq::new(k as nat, |i: int| band_of(height, n, i))) == if k == n {
            height
        } else {
            k * slice_height(height, n)
        },
    decreases k,
{
    let s = Seq::new(k as nat, |i: int| band_of(height, n, i));
    if k > 0 {
        let p = Seq::new((k - 1) as nat, |i: int| band_of(height, n, i));
        assert(s.drop_last() =~= p);
        lemma_prefix_rows(height, n, k - 1);
        lemma_slice_bounds(height, n, k - 1);
        if k < n {
            lemma_slice_bounds(height, n, k);
        }
        let q = slice_height(height, n);
        assert(k * q == (k - 1) * q + q) by (nonlinear_arith);
        let b = band_of(height, n, k - 1);
        assert(s.last() == b);
        assert(b.y_start == (k - 1) * q);
        if k == n {
            assert(b.y_end == height);
        } else {
            assert(b.y_end == k * q);
        }
        assert(total_rows(s) == total_rows(p) + b.rows());
    } else {
        assert(k * slice_height(height, n) == 0) by (nonlinear_arith) requires k == 0;
        assert(total_rows(s) == 0);
    }
}

/// The bands of one pass cover the rows of the grid exactly: their row
/// counts add up to the height, each band starts where the previous one ends,
/// and every row lies in exactly one band.
pub proof fn lemma_bands_partition(height: u32, n_workers: u32)
    requires
        n_workers > 0,
    ensures
        ({
            let bs = Seq::new(n_workers as nat, |i: int| band_of(height as int, n_workers as int, i));
            &&& total_rows(bs) == height
            &&& bs[0].y_start == 0
            &&& bs[n_workers - 1].y_end == height
            &&& forall|i: int| 0 <= i < n_workers ==> bs[i].y_start <= bs[i].y_end
            &&& forall|i: int| 0 <= i < n_workers - 1 ==> bs[i].y_end == bs[i + 1].y_start
            &&& forall|y: int| 0 <= y < height ==> {
                let i = #[trigger] row_owner(height as int, n_workers as int, y);
                0 <= i < n_workers && bs[i].contains(y)
            }
            &&& forall|i: int, j: int, y: int|
                0 <= i < n_workers && 0 <= j < n_workers && bs[i].contains(y) && bs[j].contains(y) ==> i == j
        }),
{
    let h = height as int;
    let n = n_workers as int;
    let bs = Seq::new(n_workers as nat, |i: int| band_of(h, n, i));
    lemma_prefix_rows(h, n, n);
    assert forall|i: int| 0 <= i < n implies bs[i].y_start <= bs[i].y_end by {
        lemma_slice_bounds(h, n, i);
    }
    assert forall|i: int| 0 <= i < n - 1 implies bs[i].y_end == bs[i + 1].y_start by {
        lemma_slice_bounds(h, n, i);
        lemma_slice_bounds(h, n, i + 1);
    }
    assert forall|y: int| 0 <= y < h implies {
        let i = #[trigger] row_owner(h, n, y);
        0 <= i < n && bs[i].contains(y)
    } by {
        lemma_row_owner(h, n, y);
    }
    assert forall|i: int, j: int, y: int|
        0 <= i < n && 0 <= j < n && bs[i].contains(y) && bs[j].contains(y) implies i == j by {
        lemma_band_unique(h, n, i, j, y);
    }
}

/// The band that row `y` belongs to.
pub open spec fn row_owner(height: int, n: int, y: int) -> int {
    let q = slice_height(height, n);
    if q == 0 { n - 1 } else if y / q >= n - 1 { n - 1 } else { y / q }
}

proof fn lemma_row_owner(height: int, n: int, y: int)
    requires
        0 <= height <= u32::MAX,
        0 < n,
        0 <= y < height,
    ensures
        0 <= row_owner(height, n, y) < n,
        band_of(height, n, row_owner(height, n, y)).contains(y),
{
    let q = slice_height(height, n);
    let i = row_owner(height, n, y);
    assert(0 <= q) by (nonlinear_arith) requires q == height / n, 0 <= height, 0 < n;
    lemma_slice_bounds(height, n, n - 1);
    if q == 0 {
        assert((n - 1) * q == 0) by (nonlinear_arith) requires q == 0;
    } else {
        assert(0 <= y / q) by (nonlinear_arith) requires 0 <= y, 0 < q;
        assert((y / q) * q <= y < (y / q + 1) * q) by (nonlinear_arith) requires 0 <= y, 0 < q;
        if y / q >= n - 1 {
            assert((n - 1) * q <= (y / q) * q) by (nonlinear_arith) requires y / q >= n - 1, 0 < q;
        }
        lemma_slice_bounds(height, n, i);
    }
}

proof fn lemma_band_unique(height: int, n: int, i: int, j: int, y: int)
    requires
        0 <= height <= u32::MAX,
        0 < n,
        0 <= i < n,
        0 <= j < n,
        band_of(height, n, i).contains(y),
        band_of(height, n, j).contains(y),
    ensures
        i == j,
{
    let q = slice_height(height, n);
    lemma_slice_bounds(height, n, i);
    lemma_slice_bounds(height, n, j);
    if i < j {
        assert((i + 1) * q <= j * q) by (nonlinear_arith) requires i + 1 <= j, 0 <= q, 0 <= height, 0 < n, q == height / n;
    } else if j < i {
        assert((j + 1) * q <= i * q) by (nonlinear_arith) requires j + 1 <= i, 0 <= q, 0 <= height, 0 < n, q == height / n;
    }
}

} // verus!

use vstd::prelude::*;

use crate::bands::{band_of, lemma_bands_partition, row_owner, Band};

verus! {

/// An opaque colour with 8-bit channels.
#[derive(Clone, Copy, Debug, PartialEq, Eq, Structural)]
pub struct Color {
    pub r: u8,
    pub g: u8,
    pub b: u8,
}

impl Color {
    /// The colour every cell holds before it is first written.
    pub open spec fn spec_black() -> Color {
        Color { r: 0, g: 0, b: 0 }
    }

    pub fn black() -> (c: Color)
        ensures
            c == Color::spec_black(),
    {
        Color { r: 0, g: 0, b: 0 }
    }
}

/// Brightness of an escape count: `255 * it / max_it`, rounded down and
/// capped at 255.
pub open spec fn level(it: int, max_it: int) -> int {
    if it >= max_it {
        255
    } else {
        255 * it / max_it
    }
}

/// The shade of a pixel whose point survived `it` of `max_it` iterations.
pub open spec fn shade(it: int, max_it: int) -> Color {
    Color { r: 0, g: level(it, max_it) as u8, b: (level(it, max_it) / 2) as u8 }
}

/// Shades an escape count: black for a point that escapes at once, brightening
/// towards `(0, 255, 127)` for points that never escape.
pub fn gradient(it: u32, max_it: u32) -> (c: Color)
    requires
        max_it > 0,
    ensures
        c == shade(it as int, max_it as int),
{
    let val: u8 = if it >= max_it {
        255
    } else {
        assert(255 * (it as int) / (max_it as int) < 255) by (nonlinear_arith)
            requires it < max_it, 0 < max_it;
        assert(0 <= 255 * (it as int) / (max_it as int)) by (nonlinear_arith)
            requires 0 <= it, 0 < max_it;
        (255 * (it as u64) / (max_it as u64)) as u8
    };
    Color { r: 0, g: val, b: val / 2 }
}

/// Escape count of the pixel at column `x`, row `y` among the counts of a
/// band, which are laid out row by row from the band's first row.
pub open spec fn band_count(counts: Seq<u32>, width: int, band: Band, x: int, y: int) -> int {
    counts[(y - band.y_start) * width + x] as int
}

proof fn lemma_band_count_index(width: int, band: Band, x: int, y: int)
    requires
        0 <= x < width,
        band.contains(y),
    ensures
        0 <= (y - band.y_start) * width + x < band.rows() * width,
{
    let r = y - band.y_start;
    assert(0 <= r * width + x < band.rows() * width) by (nonlinear_arith)
        requires 0 <= x < width, 0 <= r < band.rows();
}

/// Position in the cell buffer of the cell at column `x`, row `y`: the cells
/// are stored column by column.
pub open spec fn index(height: int, x: int, y: int) -> int {
    x * height + y
}

proof fn lemma_index(width: int, height: int, x: int, y: int)
    requires
        0 <= x < width,
        0 <= y < height,
    ensures
        0 <= index(height, x, y) < width * height,
{
    assert(0 <= x * height + y < width * height) by (nonlinear_arith)
        requires 0 <= x < width, 0 <= y < height;
}

proof fn lemma_index_unique(height: int, x1: int, y1: int, x2: int, y2: int)
    requires
        0 <= x1,
        0 <= x2,
        0 <= y1 < height,
        0 <= y2 < height,
        index(height, x1, y1) == index(height, x2, y2),
    ensures
        x1 == x2 && y1 == y2,
{
    if x1 < x2 {
        assert(x1 * height + y1 < x2 * height + y2) by (nonlinear_arith)
            requires x1 < x2, 0 <= y1 < height, 0 <= y2;
    } else if x2 < x1 {
        assert(x2 * height + y2 < x1 * height + y1) by (nonlinear_arith)
            requires x2 < x1, 0 <= y2 < height, 0 <= y1;
    }
}

/// `after` is `before` with the rows of `band` shaded from `counts` and every
/// other cell unchanged.
pub open spec fn band_written(before: Grid, after: Grid, band: Band, counts: Seq<u32>, max_it: int) -> bool {
    &&& after.wf()
    &&& after.spec_width() == before.spec_width()
    &&& after.spec_height() == before.spec_height()
    &&& forall|x: int, y: int|
        0 <= x < before.spec_width() && 0 <= y < before.spec_height() ==> #[trigger] after.cell(x, y) == if band.contains(y) {
            shade(band_count(counts, before.spec_width() as int, band, x, y), max_it)
        } else {
            before.cell(x, y)
        }
}

/// A `width` by `height` grid of pixel colours.
pub struct Grid {
    width: u32,
    height: u32,
    cells: Vec<Color>,
}

impl View for Grid {
    type V = Seq<Color>;

    closed spec fn view(&self) -> Seq<Color> {
        self.cells@
    }
}

impl Grid {
    pub closed spec fn spec_width(&self) -> nat {
        self.width as nat
    }

    pub closed spec fn spec_height(&self) -> nat {
        self.height as nat
    }

    /// The buffer holds one cell for each coordinate.
    pub closed spec fn wf(&self) -> bool {
        &&& self.cells@.len() == self.width * self.height
        &&& self.width * self.height <= usize::MAX
    }

    /// Colour of the cell at column `x`, row `y`.
    pub open spec fn cell(&self, x: int, y: int) -> Color {
        self@[index(self.spec_height() as int, x, y)]
    }

    /// A grid with every cell black.
    pub fn new(width: u32, height: u32) -> (g: Grid)
        requires
            width * height <= usize::MAX,
        ensures
            g.wf(),
            g.spec_width() == width,
            g.spec_height() == height,
            g@.len() == width * height,
            forall|x: int, y: int| 0 <= x < width && 0 <= y < height ==> #[trigger] g.cell(x, y) == Color::spec_black(),
    {
        let n = width as usize * height as usize;
        let mut cells: Vec<Color> = Vec::with_capacity(n);
        let mut i: usize = 0;
        while i < n
            invariant
                i <= n,
                cells@.len() == i,
                forall|k: int| 0 <= k < i ==> cells@[k] == Color::spec_black(),
            decreases n - i,
        {
            cells.push(Color::black());
            i = i + 1;
        }
        let g = Grid { width, height, cells };
        assert forall|x: int, y: int| 0 <= x < width && 0 <= y < height implies #[trigger] g.cell(x, y) == Color::spec_black() by {
            lemma_index(width as int, height as int, x, y);
        }
        g
    }

    pub fn width(&self) -> (w: u32)
        ensures
            w == self.spec_width(),
    {
        self.width
    }

    pub fn height(&self) -> (h: u32)
        ensures
            h == self.spec_height(),
    {
        self.height
    }

    /// All cells, column by column.
    pub fn cells(&self) -> (c: &Vec<Color>)
        ensures
            c@ == self@,
    {
        &self.cells
    }

    pub fn color_at(&self, x: u32, y: u32) -> (c: Color)
        requires
            self.wf(),
            x < self.spec_width(),
            y < self.spec_height(),
        ensures
            c == self.cell(x as int, y as int),
    {
        proof {
            lemma_index(self.width as int, self.height as int, x as int, y as int);
        }
        self.cells[x as usize * self.height as usize + y as usize]
    }

    /// Column and row of the cell stored at position `i` of the buffer.
    pub fn coords_of(&self, i: usize) -> (r: (u32, u32))
        requires
            self.wf(),
            i < self@.len(),
        ensures
            r.0 < self.spec_width(),
            r.1 < self.spec_height(),
            index(self.spec_height() as int, r.0 as int, r.1 as int) == i,
    {
        let h = self.height as usize;
        let ghost w = self.width as int;
        assert(h > 0) by (nonlinear_arith)
            requires i < w * h, h >= 0, w >= 0;
        let x = i / h;
        let y = i % h;
        assert(x < w && x * h + y == i) by (nonlinear_arith)
            requires x == i / h, y == i % h, 0 < h, 0 <= i < w * h;
        (x as u32, y as u32)
    }

    /// Sets the colour of the single cell at column `x`, row `y`.
    pub fn set_vertex_color(&mut self, x: u32, y: u32, color: Color)
        requires
            old(self).wf(),
            x < old(self).spec_width(),
            y < old(self).spec_height(),
        ensures
            final(self).wf(),
            final(self).spec_width() == old(self).spec_width(),
            final(self).spec_height() == old(self).spec_height(),
            forall|x2: int, y2: int|
                0 <= x2 < old(self).spec_width() && 0 <= y2 < old(self).spec_height() ==> #[trigger] final(self).cell(x2, y2) == if x2 == x && y2 == y {
                    color
                } else {
                    old(self).cell(x2, y2)
                },
    {
        proof {
            lemma_index(self.width as int, self.height as int, x as int, y as int);
        }
        let i = x as usize * self.height as usize + y as usize;
        self.cells.set(i, color);
        proof {
            assert forall|x2: int, y2: int|
                0 <= x2 < old(self).spec_width() && 0 <= y2 < old(self).spec_height() implies #[trigger] self.cell(x2, y2) == if x2 == x && y2 == y {
                    color
                } else {
                    old(self).cell(x2, y2)
                } by {
                lemma_index(self.width as int, self.height as int, x2, y2);
                if index(self.height as int, x2, y2) == i {
                    lemma_index_unique(self.height as int, x2, y2, x as int, y as int);
                }
            }
        }
    }

    /// Shades every cell of the rows of `band` from the escape counts of
    /// those rows, which hold `width` counts for each row from the first;
    /// every other cell keeps its colour.
    pub fn write_band(&mut self, band: Band, counts: &Vec<u32>, max_it: u32)
        requires
            old(self).wf(),
            band.y_start <= band.y_end <= old(self).spec_height(),
            counts@.len() == band.rows() * old(self).spec_width(),
            max_it > 0,
        ensures
            band_written(*old(self), *final(self), band, counts@, max_it as int),
    {
        let w = self.width;
        let h = self.height;
        let n_counts = counts.len();
        let ghost start = *self;
        let mut x: u32 = 0;
        while x < w
            invariant
                self.wf(),
                x <= w,
                w == start.spec_width() && w == self.spec_width(),
                h == start.spec_height() && h == self.spec_height(),
                band.y_start <= band.y_end <= h,
                counts@.len() == band.rows() * w,
                n_counts == counts@.len(),
                max_it > 0,
                forall|x2: int, y2: int|
                    0 <= x2 < w && 0 <= y2 < h ==> #[trigger] self.cell(x2, y2) == if x2 < x && band.contains(y2) {
                        shade(band_count(counts@, w as int, band, x2, y2), max_it as int)
                    } else {
                        start.cell(x2, y2)
                    },
            decreases w - x,
        {
            let mut y: u32 = band.y_start;
            while y < band.y_end
                invariant
                    self.wf(),
                    x < w,
                    band.y_start <= y <= band.y_end,
                    w == self.spec_width(),
                    h == self.spec_height(),
                    band.y_start <= band.y_end <= h,
                    counts@.len() == band.rows() * w,
                    n_counts == counts@.len(),
                    max_it > 0,
                    forall|x2: int, y2: int|
                        0 <= x2 < w && 0 <= y2 < h ==> #[trigger] self.cell(x2, y2) == if (x2 < x && band.contains(y2)) || (x2 == x && band.y_start <= y2 < y) {
                            shade(band_count(counts@, w as int, band, x2, y2), max_it as int)
                        } else {
                            start.cell(x2, y2)
                        },
                decreases band.y_end - y,
            {
                proof {
                    lemma_band_count_index(w as int, band, x as int, y as int);
                }
                let k = (y - band.y_start) as usize * w as usize + x as usize;
                let c = gradient(counts[k], max_it);
                self.set_vertex_color(x, y, c);
                y = y + 1;
            }
            x = x + 1;
        }
    }
}

/// Colour of the cell at column `x`, row `y` once a pass over `height` rows
/// shared by `n_workers` workers has shaded it from `counts[i]`, the escape
/// counts of band `i`.
pub open spec fn pass_color(
    width: int,
    height: int,
    n_workers: int,
    counts: Seq<Seq<u32>>,
    max_it: int,
    x: int,
    y: int,
) -> Color {
    let i = row_owner(height, n_workers, y);
    shade(band_count(counts[i], width, band_of(height, n_workers, i), x, y), max_it)
}

/// The writes of a pass, in the order they happen: `grids[k + 1]` is
/// `grids[k]` with band `order[k]` shaded from `counts[order[k]]`.
pub open spec fn pass_steps(grids: Seq<Grid>, order: Seq<int>, counts: Seq<Seq<u32>>, n_workers: int, max_it: int) -> bool {
    &&& grids.len() == order.len() + 1
    &&& grids[0].wf()
    &&& n_workers > 0
    &&& counts.len() == n_workers
    &&& forall|k: int| 0 <= k < order.len() ==> 0 <= #[trigger] order[k] < n_workers
    &&& forall|k: int|
        0 <= k < order.len() ==> band_written(
            #[trigger] grids[k],
            grids[k + 1],
            band_of(grids[0].spec_height() as int, n_workers, order[k]),
            counts[order[k]],
            max_it,
        )
}

proof fn lemma_pass_prefix(
    grids: Seq<Grid>,
    order: Seq<int>,
    counts: Seq<Seq<u32>>,
    n_workers: u32,
    max_it: int,
    k: int,
)
    requires
        pass_steps(grids, order, counts, n_workers as int, max_it),
        0 <= k <= order.len(),
    ensures
        ({
            let w = grids[0].spec_width() as int;
            let h = grids[0].spec_height() as int;
            let n = n_workers as int;
            &&& grids[k].wf()
            &&& grids[k].spec_width() == w
            &&& grids[k].spec_height() == h
            &&& forall|x: int, y: int|
                0 <= x < w && 0 <= y < h ==> #[trigger] grids[k].cell(x, y) == if order.subrange(0, k).contains(row_owner(h, n, y)) {
                    pass_color(w, h, n, counts, max_it, x, y)
                } else {
                    grids[0].cell(x, y)
                }
        }),
    decreases k,
{
    let w = grids[0].spec_width() as int;
    let h = grids[0].spec_height() as int;
    let n = n_workers as int;
    if k == 0 {
        assert forall|x: int, y: int| 0 <= x < w && 0 <= y < h implies #[trigger] grids[k].cell(x, y) == if order.subrange(0, k).contains(row_owner(h, n, y)) {
            pass_color(w, h, n, counts, max_it, x, y)
        } else {
            grids[0].cell(x, y)
        } by {
            assert(!order.subrange(0, 0).contains(row_owner(h, n, y)));
        }
    } else {
        let j = k - 1;
        lemma_pass_prefix(grids, order, counts, n_workers, max_it, j);
        lemma_bands_partition(h as u32, n_workers);
        let b = order[j];
        let band = band_of(h, n, b);
        assert(band_written(grids[j], grids[j + 1], band, counts[b], max_it));
        assert forall|x: int, y: int| 0 <= x < w && 0 <= y < h implies #[trigger] grids[k].cell(x, y) == if order.subrange(0, k).contains(row_owner(h, n, y)) {
            pass_color(w, h, n, counts, max_it, x, y)
        } else {
            grids[0].cell(x, y)
        } by {
            let o = row_owner(h, n, y);
            let bs = Seq::new(n_workers as nat, |i: int| band_of(h, n, i));
            assert(0 <= o < n && bs[o].contains(y));
            assert(bs[b] == band);
            assert(grids[j].cell(x, y) == if order.subrange(0, j).contains(o) {
                pass_color(w, h, n, counts, max_it, x, y)
            } else {
                grids[0].cell(x, y)
            });
            if band.contains(y) {
                assert(o == b);
                assert(order.subrange(0, k)[j] == b);
            } else {
                assert(o != b);
                if order.subrange(0, j).contains(o) {
                    let i = choose|i: int| 0 <= i < j && order.subrange(0, j)[i] == o;
                    assert(order.subrange(0, k)[i] == o);
                }
                if order.subrange(0, k).contains(o) {
                    let i = choose|i: int| 0 <= i < k && order.subrange(0, k)[i] == o;
                    assert(i != j);
                    assert(order.subrange(0, j)[i] == o);
                }
            }
        }
    }
}

/// A pass leaves no stale cell: when the bands of one pass are written one
/// after another, in any order and each at least once, every cell ends up
/// with the colour computed for it in this pass, whatever it held before.
pub proof fn lemma_pass_paints_every_cell(
    grids: Seq<Grid>,
    order: Seq<int>,
    counts: Seq<Seq<u32>>,
    n_workers: u32,
    max_it: int,
)
    requires
        pass_steps(grids, order, counts, n_workers as int, max_it),
        forall|i: int| 0 <= i < n_workers ==> order.contains(i),
    ensures
        ({
            let last = grids.last();
            let w = grids[0].spec_width() as int;
            let h = grids[0].spec_height() as int;
            &&& last.wf()
            &&& last.spec_width() == w
            &&& last.spec_height() == h
            &&& forall|x: int, y: int|
                0 <= x < w && 0 <= y < h ==> #[trigger] last.cell(x, y) == pass_color(w, h, n_workers as int, counts, max_it, x, y)
        }),
{
    let w = grids[0].spec_width() as int;
    let h = grids[0].spec_height() as int;
    let n = n_workers as int;
    let len = order.len() as int;
    lemma_pass_prefix(grids, order, counts, n_workers, max_it, len);
    lemma_bands_partition(h as u32, n_workers);
    assert(order.subrange(0, len) =~= order);
    assert forall|x: int, y: int| 0 <= x < w && 0 <= y < h implies #[trigger] grids.last().cell(x, y) == pass_color(w, h, n, counts, max_it, x, y) by {
        let o = row_owner(h, n, y);
        assert(0 <= o < n);
        assert(order.contains(o));
        assert(grids[len].cell(x, y) == pass_color(w, h, n, counts, max_it, x, y));
    }
}

} // verus!
